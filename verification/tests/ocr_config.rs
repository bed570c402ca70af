use vectorsnap::config::{
    add_favorite, default_editor_command, move_entry, remove_entry, AppConfig, OcrModelConfig,
    Platform,
};
use vectorsnap::ocr::{
    bearer_header, interpret_cloud_reply, ocr_backend, ocr_image_data_url, ocr_model_files,
    ocr_prompt, png_data_url_text, CloudReply, OcrBackend,
};

fn model(name: &str, id: &str, provider: &str) -> OcrModelConfig {
    OcrModelConfig {
        name: name.to_string(),
        model_id: id.to_string(),
        provider: provider.to_string(),
        api_token: format!("{}-token", name),
        api_url: format!("https://{}.example/v1", name),
    }
}

#[test]
fn backend_by_provider() {
    assert_eq!(ocr_backend("local"), OcrBackend::Local);
    assert_eq!(ocr_backend("openai"), OcrBackend::Cloud);
    assert_eq!(ocr_backend("Local"), OcrBackend::Cloud);
    assert_eq!(ocr_backend(""), OcrBackend::Cloud);
}

#[test]
fn prompts_per_backend() {
    assert_eq!(ocr_prompt(OcrBackend::Local), "OCR:");
    assert_eq!(
        ocr_prompt(OcrBackend::Cloud),
        "Please recognize the text and formulas in this image and output them in standard LaTeX format. Do not solve it"
    );
}

#[test]
fn local_model_file_names() {
    assert_eq!(
        ocr_model_files("GLM-OCR-Q8_0"),
        ("GLM-OCR-Q8_0.gguf".to_string(), "mmproj-GLM-OCR-Q8_0.gguf".to_string())
    );
}

#[test]
fn bearer_header_trims_token() {
    assert_eq!(bearer_header("  sk-abc \n"), "Bearer sk-abc");
    assert_eq!(bearer_header(""), "Bearer ");
}

#[test]
fn png_bytes_as_data_url() {
    assert_eq!(png_data_url_text(b""), "data:image/png;base64,");
    assert_eq!(png_data_url_text(b"Man"), "data:image/png;base64,TWFu");
    assert_eq!(png_data_url_text(b"Ma"), "data:image/png;base64,TWE=");
    assert_eq!(png_data_url_text(b"M"), "data:image/png;base64,TQ==");
    assert_eq!(png_data_url_text(&[0xfb, 0xff, 0xfe]), "data:image/png;base64,+//+");
}

#[test]
fn image_encoded_as_png_data_url() {
    let url = ocr_image_data_url(2, 1, vec![255, 0, 0, 255, 0, 0, 255, 128]).unwrap();
    // Base64 of the PNG signature 89 50 4E 47 0D 0A 1A 0A.
    assert!(url.starts_with("data:image/png;base64,iVBORw0KGgo"));
    assert!(url.len() > "data:image/png;base64,iVBORw0KGgo".len());
}

#[test]
fn image_with_too_few_bytes_is_not_encoded() {
    assert_eq!(ocr_image_data_url(2, 2, vec![0, 0, 0, 0]), None);
}

#[test]
fn cloud_reply_with_fenced_content() {
    let r = CloudReply {
        success: true,
        content: Some("Sure:\n```latex\n\\alpha\n```".to_string()),
        error_message: None,
        error_text: None,
    };
    assert_eq!(interpret_cloud_reply(&r), Ok("\\alpha".to_string()));
}

#[test]
fn cloud_reply_without_content() {
    let r = CloudReply { success: true, content: None, error_message: None, error_text: None };
    assert_eq!(
        interpret_cloud_reply(&r),
        Err("Failed to parse content from response".to_string())
    );
}

#[test]
fn cloud_reply_errors() {
    let with_message = CloudReply {
        success: false,
        content: Some("ignored".to_string()),
        error_message: Some("quota exceeded".to_string()),
        error_text: Some("other".to_string()),
    };
    assert_eq!(interpret_cloud_reply(&with_message), Err("quota exceeded".to_string()));
    let with_text = CloudReply {
        success: false,
        content: None,
        error_message: None,
        error_text: Some("bad request".to_string()),
    };
    assert_eq!(interpret_cloud_reply(&with_text), Err("bad request".to_string()));
    let bare = CloudReply { success: false, content: None, error_message: None, error_text: None };
    assert_eq!(interpret_cloud_reply(&bare), Err("Unknown API Error".to_string()));
}

#[test]
fn default_editor_commands() {
    assert_eq!(default_editor_command(Platform::Linux), "gvim --remote-silent +{line} {file}");
    assert_eq!(
        default_editor_command(Platform::Windows),
        "gvim.exe --remote-silent +{line} {file}"
    );
}

#[test]
fn default_config() {
    let c = AppConfig::default_for(Platform::Linux);
    assert!(c.favorite_files.is_empty());
    assert!(c.favorite_folders.is_empty());
    assert!(!c.show_full_path);
    assert_eq!(c.editor_command, "gvim --remote-silent +{line} {file}");
    assert_eq!(c.ocr_models.len(), 1);
    assert_eq!(c.ocr_models[0].name, "GLM-OCR");
    assert_eq!(c.ocr_models[0].model_id, "GLM-OCR-Q8_0");
    assert_eq!(c.ocr_models[0].provider, "local");
    assert_eq!(c.current_ocr_model_name, "GLM-OCR");
    assert_eq!(c.current_model_index(), Some(0));
    assert_eq!(c.current_model_label(), "GLM-OCR");
    let s = c.active_ocr_settings();
    assert_eq!(s.model_id, "GLM-OCR-Q8_0");
    assert_eq!(s.provider, "local");
    assert_eq!(s.api_url, "");
    assert_eq!(s.api_token, "");
}

#[test]
fn active_settings_of_named_model() {
    let mut c = AppConfig::default_for(Platform::Linux);
    c.ocr_models.push(model("gpt", "gpt-4o", "openai"));
    c.ocr_models.push(model("gpt", "second", "openai"));
    c.current_ocr_model_name = "gpt".to_string();
    assert_eq!(c.current_model_index(), Some(1));
    let s = c.active_ocr_settings();
    assert_eq!(s.model_id, "gpt-4o");
    assert_eq!(s.provider, "openai");
    assert_eq!(s.api_url, "https://gpt.example/v1");
    assert_eq!(s.api_token, "gpt-token");
}

#[test]
fn active_settings_fall_back_to_local_model() {
    let mut c = AppConfig::default_for(Platform::Windows);
    c.current_ocr_model_name = "missing".to_string();
    assert_eq!(c.current_model_index(), None);
    assert_eq!(c.current_model_label(), "Select Model");
    let s = c.active_ocr_settings();
    assert_eq!(s.model_id, "GLM-OCR-Q8_0");
    assert_eq!(s.provider, "local");
    assert_eq!(s.api_url, "");
}

#[test]
fn selecting_a_model() {
    let mut c = AppConfig::default_for(Platform::Linux);
    c.ocr_models.push(model("mathpix", "mp-3", "remote"));
    let s = c.select_ocr_model(1);
    assert_eq!(c.current_ocr_model_name, "mathpix");
    assert_eq!(s.model_id, "mp-3");
    assert_eq!(s.api_url, "https://mathpix.example/v1");
    assert_eq!(c.ocr_models.len(), 2);
}

#[test]
fn favorites_are_added_once() {
    let mut list: Vec<String> = Vec::new();
    assert!(add_favorite(&mut list, "/a.pdf".to_string()));
    assert!(add_favorite(&mut list, "/b.pdf".to_string()));
    assert!(!add_favorite(&mut list, "/a.pdf".to_string()));
    assert_eq!(list, vec!["/a.pdf".to_string(), "/b.pdf".to_string()]);
}

#[test]
fn favorites_move_and_remove() {
    let mut list = vec!["a".to_string(), "b".to_string(), "c".to_string()];
    move_entry(&mut list, 2, true);
    assert_eq!(list, vec!["a", "c", "b"]);
    move_entry(&mut list, 0, false);
    assert_eq!(list, vec!["c", "a", "b"]);
    remove_entry(&mut list, 1);
    assert_eq!(list, vec!["c", "b"]);
}

#[test]
fn data_url_refuses_zero_width() {
    assert_eq!(ocr_image_data_url(0, 5, vec![]), None);
    assert_eq!(ocr_image_data_url(3, 0, vec![1, 2, 3, 4]), None);
}

#[test]
fn data_url_accepts_longer_buffer() {
    let url = ocr_image_data_url(1, 1, vec![10, 20, 30, 255, 9, 9, 9, 9]).unwrap();
    assert!(url.starts_with("data:image/png;base64,iVBORw0KGgo"));
}
