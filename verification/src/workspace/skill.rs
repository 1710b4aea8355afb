//! Skills and the files that belong to them.
use vstd::prelude::*;

verus! {

/// A discovered skill within the workspace.
#[non_exhaustive]
#[derive(Debug)]
pub struct Skill {
    /// The name of the skill.
    pub name: String,
    /// Absolute path to the `{name}.pan` source file.
    pub source_path: String,
    /// Absolute path to the skill's source directory.
    pub src_dir: String,
    /// Absolute path to the skill's output directory.
    pub target_dir: String,
    /// Scripts discovered within this skill.
    pub scripts: Vec<Script>,
    /// Reference `.pan` files discovered within this skill.
    pub references: Vec<Reference>,
    /// Every file under the skill's source directory, as a path relative to
    /// it with `/` separators.
    pub files: Vec<String>,
}

impl Skill {
    /// A skill with the given paths and contents.
    pub fn new(
        name: String,
        source_path: String,
        src_dir: String,
        target_dir: String,
        scripts: Vec<Script>,
        references: Vec<Reference>,
        files: Vec<String>,
    ) -> (r: Self)
        ensures
            r.name == name,
            r.source_path == source_path,
            r.src_dir == src_dir,
            r.target_dir == target_dir,
            r.scripts == scripts,
            r.references == references,
            r.files == files,
    {
        Skill { name, source_path, src_dir, target_dir, scripts, references, files }
    }

    /// The display name of the skill: `skills/{name}`.
    pub fn display_name(&self) -> (r: String)
        ensures
            r@ == "skills/"@ + self.name@,
    {
        crate::text::concat("skills/", self.name.as_str())
    }
}

/// A script file associated with a skill.
/// Scripts are not compiled but copied as they are.
#[derive(Debug)]
pub struct Script {
    /// The script's file stem.
    pub name: String,
    /// Path relative to the skill directory (e.g. `scripts/setup.sh`).
    pub relative_path: String,
    /// Absolute path to the script file.
    pub absolute_path: String,
}

impl Script {
    /// The display name of the script: `scripts/{name}`.
    pub fn display_name(&self) -> (r: String)
        ensures
            r@ == "scripts/"@ + self.name@,
    {
        crate::text::concat("scripts/", self.name.as_str())
    }
}

/// A reference `.pan` file associated with a skill.
#[derive(Debug)]
pub struct Reference {
    /// The reference's path under `references/`, without extension.
    pub name: String,
    /// Path relative to the skill directory (e.g. `references/api/types.pan`).
    pub relative_path: String,
    /// Absolute path to the reference file.
    pub absolute_path: String,
}

impl Reference {
    /// The display name of the reference: `refs/{name}`.
    pub fn display_name(&self) -> (r: String)
        ensures
            r@ == "refs/"@ + self.name@,
    {
        crate::text::concat("refs/", self.name.as_str())
    }
}

} // verus!
