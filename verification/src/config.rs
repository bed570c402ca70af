//! The user's settings: favourite files and folders, the editor command
//! for jumping to LaTeX sources, and the OCR models to choose from.
use vstd::prelude::*;
use crate::text::{chars_of, string_of};

verus! {

/// The operating system the viewer runs on.
#[derive(Clone, Copy, PartialEq, Eq, Structural, Debug)]
pub enum Platform {
    Linux,
    Windows,
}

/// One OCR model the user can pick.
pub struct OcrModelConfig {
    pub name: String,
    pub model_id: String,
    pub provider: String,
    pub api_token: String,
    pub api_url: String,
}

/// The settings kept between runs.
pub struct AppConfig {
    pub favorite_files: Vec<String>,
    pub favorite_folders: Vec<String>,
    pub show_full_path: bool,
    pub editor_command: String,
    pub ocr_models: Vec<OcrModelConfig>,
    pub current_ocr_model_name: String,
}

/// The editor command used until the user sets another.
pub open spec fn default_editor_command_text(p: Platform) -> Seq<char> {
    match p {
        Platform::Linux => "gvim --remote-silent +{line} {file}"@,
        Platform::Windows => "gvim.exe --remote-silent +{line} {file}"@,
    }
}

/// The editor command used until the user sets another.
pub fn default_editor_command(p: Platform) -> (s: String)
    ensures
        s@ == default_editor_command_text(p),
{
    match p {
        Platform::Linux => string_of(&chars_of("gvim --remote-silent +{line} {file}")),
        Platform::Windows => string_of(&chars_of("gvim.exe --remote-silent +{line} {file}")),
    }
}

/// The settings a connection to the OCR model needs.
pub struct OcrSettings {
    pub api_url: String,
    pub api_token: String,
    pub model_id: String,
    pub provider: String,
}

/// The index of the first model named `name`.
pub open spec fn model_index(models: Seq<OcrModelConfig>, name: Seq<char>) -> Option<int>
    decreases models.len(),
{
    if models.len() == 0 {
        None
    } else if models[0].name@ == name {
        Some(0)
    } else {
        match model_index(models.drop_first(), name) {
            Some(k) => Some(k + 1),
            None => None,
        }
    }
}

proof fn lemma_model_index(models: Seq<OcrModelConfig>, name: Seq<char>, k: int)
    requires
        0 <= k <= models.len(),
        forall|j: int| 0 <= j < k ==> (#[trigger] models[j]).name@ != name,
        k < models.len() ==> models[k].name@ == name,
    ensures
        model_index(models, name) == if k < models.len() { Some(k) } else { None::<int> },
    decreases models.len(),
{
    if models.len() > 0 && models[0].name@ != name {
        assert forall|j: int| 0 <= j < k - 1 implies (#[trigger] models.drop_first()[j]).name@ != name by {
            assert(models.drop_first()[j] == models[j + 1]);
        }
        lemma_model_index(models.drop_first(), name, k - 1);
    }
}

/// The settings of a model.
pub open spec fn settings_of(m: OcrModelConfig) -> (Seq<char>, Seq<char>, Seq<char>, Seq<char>) {
    (m.api_url@, m.api_token@, m.model_id@, m.provider@)
}

/// The OCR settings at start-up: those of the first model whose name is the
/// current model name, else the bundled local model with no URL or token.
pub open spec fn active_settings(c: AppConfig) -> (Seq<char>, Seq<char>, Seq<char>, Seq<char>) {
    match model_index(c.ocr_models@, c.current_ocr_model_name@) {
        Some(i) => settings_of(c.ocr_models@[i]),
        None => (Seq::empty(), Seq::empty(), "GLM-OCR-Q8_0"@, "local"@),
    }
}

impl OcrModelConfig {
    /// The connection settings of this model.
    pub fn settings(&self) -> (s: OcrSettings)
        ensures
            (s.api_url@, s.api_token@, s.model_id@, s.provider@) == settings_of(*self),
    {
        OcrSettings {
            api_url: self.api_url.clone(),
            api_token: self.api_token.clone(),
            model_id: self.model_id.clone(),
            provider: self.provider.clone(),
        }
    }
}

impl AppConfig {
    /// The settings of a first run on `platform`: no favourites, file names
    /// only, the default editor command, and the bundled local model `GLM-OCR`
    /// selected.
    pub fn default_for(platform: Platform) -> (c: AppConfig)
        ensures
            c.favorite_files@.len() == 0,
            c.favorite_folders@.len() == 0,
            !c.show_full_path,
            c.editor_command@ == default_editor_command_text(platform),
            c.ocr_models@.len() == 1,
            c.ocr_models@[0].name@ == "GLM-OCR"@,
            c.ocr_models@[0].model_id@ == "GLM-OCR-Q8_0"@,
            c.ocr_models@[0].provider@ == "local"@,
            c.ocr_models@[0].api_token@ == Seq::<char>::empty(),
            c.ocr_models@[0].api_url@ == Seq::<char>::empty(),
            c.current_ocr_model_name@ == "GLM-OCR"@,
    {
        let mut models: Vec<OcrModelConfig> = Vec::new();
        let empty: Vec<char> = Vec::new();
        models.push(
            OcrModelConfig {
                name: string_of(&chars_of("GLM-OCR")),
                model_id: string_of(&chars_of("GLM-OCR-Q8_0")),
                provider: string_of(&chars_of("local")),
                api_token: string_of(&empty),
                api_url: string_of(&empty),
            },
        );
        AppConfig {
            favorite_files: Vec::new(),
            favorite_folders: Vec::new(),
            show_full_path: false,
            editor_command: default_editor_command(platform),
            ocr_models: models,
            current_ocr_model_name: string_of(&chars_of("GLM-OCR")),
        }
    }

    /// The position of the first model named like the current one.
    pub fn current_model_index(&self) -> (r: Option<usize>)
        ensures
            match r {
                Some(i) => i < self.ocr_models@.len() && model_index(self.ocr_models@, self.current_ocr_model_name@) == Some(i as int),
                None => model_index(self.ocr_models@, self.current_ocr_model_name@) is None,
            },
    {
        let mut i: usize = 0;
        while i < self.ocr_models.len()
            invariant
                i <= self.ocr_models@.len(),
                forall|j: int| 0 <= j < i ==> (#[trigger] self.ocr_models@[j]).name@ != self.current_ocr_model_name@,
            decreases self.ocr_models.len() - i,
        {
            if self.ocr_models[i].name == self.current_ocr_model_name {
                proof {
                    lemma_model_index(self.ocr_models@, self.current_ocr_model_name@, i as int);
                }
                return Some(i);
            }
            i += 1;
        }
        proof {
            lemma_model_index(self.ocr_models@, self.current_ocr_model_name@, i as int);
        }
        None
    }

    /// The OCR settings at start-up; see `active_settings`.
    pub fn active_ocr_settings(&self) -> (s: OcrSettings)
        ensures
            (s.api_url@, s.api_token@, s.model_id@, s.provider@) == active_settings(*self),
    {
        match self.current_model_index() {
            Some(i) => self.ocr_models[i].settings(),
            None => {
                let empty: Vec<char> = Vec::new();
                OcrSettings {
                    api_url: string_of(&empty),
                    api_token: string_of(&empty),
                    model_id: string_of(&chars_of("GLM-OCR-Q8_0")),
                    provider: string_of(&chars_of("local")),
                }
            },
        }
    }

    /// The name shown on the model menu: the current model's, or
    /// `"Select Model"` when no model has that name.
    pub fn current_model_label(&self) -> (s: String)
        ensures
            s@ == match model_index(self.ocr_models@, self.current_ocr_model_name@) {
                Some(i) => self.ocr_models@[i].name@,
                None => "Select Model"@,
            },
    {
        match self.current_model_index() {
            Some(i) => self.ocr_models[i].name.clone(),
            None => string_of(&chars_of("Select Model")),
        }
    }

    /// Picks the model at `index` on the menu: it becomes the current model,
    /// and its connection settings are returned.
    pub fn select_ocr_model(&mut self, index: usize) -> (s: OcrSettings)
        requires
            index < old(self).ocr_models@.len(),
        ensures
            final(self).current_ocr_model_name@ == old(self).ocr_models@[index as int].name@,
            final(self).ocr_models == old(self).ocr_models,
            final(self).favorite_files == old(self).favorite_files,
            final(self).favorite_folders == old(self).favorite_folders,
            final(self).show_full_path == old(self).show_full_path,
            final(self).editor_command == old(self).editor_command,
            (s.api_url@, s.api_token@, s.model_id@, s.provider@) == settings_of(old(self).ocr_models@[index as int]),
    {
        let name = self.ocr_models[index].name.clone();
        self.current_ocr_model_name = name;
        self.ocr_models[index].settings()
    }
}

// ---------------------------------------------------------------------------
// Favourite lists
// ---------------------------------------------------------------------------

/// The characters of each entry.
pub open spec fn entry_views(v: Seq<String>) -> Seq<Seq<char>> {
    v.map_values(|s: String| s@)
}

/// Adds `entry` to a favourite list unless it is already there; true when
/// the list changed (and should be saved).
pub fn add_favorite(list: &mut Vec<String>, entry: String) -> (added: bool)
    ensures
        added == !entry_views(old(list)@).contains(entry@),
        entry_views(final(list)@) == if added {
            entry_views(old(list)@).push(entry@)
        } else {
            entry_views(old(list)@)
        },
{
    let mut i: usize = 0;
    while i < list.len()
        invariant
            i <= list@.len(),
            forall|j: int| 0 <= j < i ==> list@[j]@ != entry@,
        decreases list.len() - i,
    {
        if list[i] == entry {
            assert(entry_views(list@)[i as int] == entry@);
            return false;
        }
        i += 1;
    }
    assert(!entry_views(list@).contains(entry@)) by {
        if entry_views(list@).contains(entry@) {
            let j = choose|j: int| 0 <= j < entry_views(list@).len() && entry_views(list@)[j] == entry@;
            assert(list@[j]@ == entry@);
        }
    }
    let ghost before = list@;
    list.push(entry);
    assert(entry_views(list@) =~= entry_views(before).push(list@[before.len() as int]@));
    true
}

/// No entry occurs twice.
pub open spec fn no_repeats(v: Seq<Seq<char>>) -> bool {
    forall|i: int, j: int| 0 <= i < j < v.len() ==> v[i] != v[j]
}

/// A favourite list never holds an entry twice: adding to a list without
/// repeats, whatever `add_favorite` answered, leaves a list without repeats.
pub proof fn lemma_favorites_stay_unique(before: Seq<Seq<char>>, entry: Seq<char>)
    requires
        no_repeats(before),
    ensures
        no_repeats(if !before.contains(entry) { before.push(entry) } else { before }),
{
    if !before.contains(entry) {
        let after = before.push(entry);
        assert forall|i: int, j: int| 0 <= i < j < after.len() implies after[i] != after[j] by {
            if j == before.len() {
                assert(after[i] == before[i]);
                assert(before.contains(before[i]));
            }
        }
    }
}

/// Removes the entry at `index` from a list (a favourite list, or the
/// files to merge).
pub fn remove_entry<T>(list: &mut Vec<T>, index: usize)
    requires
        index < old(list)@.len(),
    ensures
        final(list)@ == old(list)@.remove(index as int),
{
    list.remove(index);
}

/// Moves the entry at `index` of a list one place up (towards the start)
/// or down, swapping it with its neighbour.
pub fn move_entry<T>(list: &mut Vec<T>, index: usize, up: bool)
    requires
        up ==> 0 < index < old(list).len(),
        !up ==> index + 1 < old(list).len(),
    ensures
        ({
            let other = if up { index - 1 } else { index + 1 };
            final(list)@ == old(list)@.update(index as int, old(list)@[other]).update(other, old(list)@[index as int])
        }),
{
    let ghost before = list@;
    let other = if up { index - 1 } else { index + 1 };
    let x = list.remove(index);
    list.insert(other, x);
    assert(list@ =~= before.update(index as int, before[other as int]).update(other as int, before[index as int]));
}

} // verus!
