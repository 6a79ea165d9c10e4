//! Voxelization of triangle meshes into MagicaVoxel models: the integer
//! logic of the voxelizer (palette encoding, colour blending, voxel
//! chunks, the sparse octree, scene graphs, mesh triangulation and index
//! bookkeeping), with contracts checked by Verus.
use vstd::prelude::*;

pub mod gltf2;
pub mod io;
pub mod math;
pub mod octree;
pub mod scene;
pub mod vox;
pub mod voxelizer;
pub mod voxquant_core;
pub mod voxquant_dotvox;
pub mod voxquant_gltf;

pub use crate::voxelizer::VoxelizationMode;

verus! {

/// How the palette of the written model is chosen.
#[derive(Debug, Clone, Copy, PartialEq, Eq)]
pub enum ColorMode {
    /// A fixed palette of 6 x 7 x 6 shades.
    Static,
    /// A palette fitted to the colours of the voxelized model.
    Dynamic,
}

impl ColorMode {
    /// The name of the mode on the command line.
    pub open spec fn spec_name(self) -> Seq<char> {
        match self {
            ColorMode::Static => "static"@,
            ColorMode::Dynamic => "dynamic"@,
        }
    }

    /// The name of the mode on the command line.
    pub fn to_string(&self) -> (r: String)
        ensures
            r@ == self.spec_name(),
    {
        match self {
            ColorMode::Static => "static".to_owned(),
            ColorMode::Dynamic => "dynamic".to_owned(),
        }
    }
}

/// Why the type of a file could not be told from its name.
#[derive(Debug, Clone, Copy, PartialEq, Eq)]
pub enum FileTypeError {
    /// The file name has no extension.
    NoExtension,
    /// The extension is not one of the supported formats.
    UnsupportedExtension,
}

/// What `std::path::Path::extension` finds in the path spelled by `path`:
/// the part of the file name after its last `.`, if there is one.
pub uninterp spec fn path_extension_of(path: Seq<char>) -> Option<Seq<char>>;

/// Whether `path` is a single file name on every platform: no separator
/// (`/` or `\\`), no drive prefix (`:`), and not the parent directory.
pub open spec fn is_plain_file_name(path: Seq<char>) -> bool {
    !path.contains('/') && !path.contains('\\') && !path.contains(':') && path != ".."@
}

/// The position of the last `.` in `path`, or -1 where it has none.
pub open spec fn last_dot(path: Seq<char>) -> int
    decreases path.len(),
{
    if path.len() == 0 {
        -1
    } else if path.last() == '.' {
        path.len() - 1
    } else {
        last_dot(path.drop_last())
    }
}

/// The extension of a plain file name: the text after its last `.`, and
/// none where it has no `.` but possibly its first character.
pub open spec fn plain_extension(path: Seq<char>) -> Option<Seq<char>> {
    if last_dot(path) <= 0 {
        None
    } else {
        Some(path.subrange(last_dot(path) + 1, path.len() as int))
    }
}

/// Calls `std::path::Path::extension` on the path spelled by `path`.
/// Trusted: the result is the extension that `Path::extension` returns,
/// as a string, and depends on `path` alone. As documented, it is the text
/// after the last `.` of the file name, so it holds no `.` and no `/`, and
/// a path without any `.` has none. Which part of the path is the file
/// name (trailing separators, `..`) is left to the name, except for a
/// plain file name, which is its own file name: there the extension is the
/// text after the last `.`, and there is none where the only `.` is the
/// first character.
#[verifier::external_body]
fn path_extension(path: &str) -> (r: Option<String>)
    ensures
        match r {
            Some(ext) => path_extension_of(path@) == Some(ext@),
            None => path_extension_of(path@) is None,
        },
        !path@.contains('.') ==> r is None,
        r matches Some(ext) ==> !ext@.contains('.') && !ext@.contains('/'),
        is_plain_file_name(path@) ==> match r {
            Some(ext) => plain_extension(path@) == Some(ext@),
            None => plain_extension(path@) is None,
        },
{
    std::path::Path::new(path).extension().and_then(|ext| ext.to_str()).map(|ext| ext.to_owned())
}

/// Returns the extension of the file at `path`.
pub fn get_extension(path: &str) -> (r: Result<String, FileTypeError>)
    ensures
        match path_extension_of(path@) {
            Some(ext) => r matches Ok(e) && e@ == ext,
            None => r == Err::<String, FileTypeError>(FileTypeError::NoExtension),
        },
        !path@.contains('.') ==> r == Err::<String, FileTypeError>(FileTypeError::NoExtension),
        r matches Ok(e) ==> !e@.contains('.') && !e@.contains('/'),
        is_plain_file_name(path@) ==> match plain_extension(path@) {
            Some(ext) => r matches Ok(e) && e@ == ext,
            None => r == Err::<String, FileTypeError>(FileTypeError::NoExtension),
        },
{
    match path_extension(path) {
        Some(ext) => Ok(ext),
        None => Err(FileTypeError::NoExtension),
    }
}

/// Whether two strings hold the same characters.
fn same_text(a: &str, b: &str) -> (r: bool)
    ensures
        r == (a@ == b@),
{
    a.to_owned() == b.to_owned()
}

/// The formats that can be read.
#[derive(Debug, Clone, Copy, PartialEq, Eq)]
pub enum InputType {
    /// glTF 2.0, as `.gltf` or `.glb`.
    GlbGltf,
}

/// The input type for a file extension, if it is supported.
pub open spec fn spec_input_type(ext: Seq<char>) -> Option<InputType> {
    if ext == "gltf"@ || ext == "glb"@ {
        Some(InputType::GlbGltf)
    } else {
        None
    }
}

/// The input type the file at `file` has, by its extension.
pub open spec fn spec_input_type_of_file(file: Seq<char>) -> Result<InputType, FileTypeError> {
    match path_extension_of(file) {
        None => Err(FileTypeError::NoExtension),
        Some(ext) => match spec_input_type(ext) {
            Some(t) => Ok(t),
            None => Err(FileTypeError::UnsupportedExtension),
        },
    }
}

impl InputType {
    /// Derives the input type from a file extension: `gltf` and `glb`
    /// are glTF, anything else is unsupported.
    pub fn from_extension(ext: &str) -> (r: Result<Self, FileTypeError>)
        ensures
            r == (match spec_input_type(ext@) {
                Some(t) => Ok(t),
                None => Err(FileTypeError::UnsupportedExtension),
            }),
    {
        if same_text(ext, "gltf") || same_text(ext, "glb") {
            Ok(InputType::GlbGltf)
        } else {
            Err(FileTypeError::UnsupportedExtension)
        }
    }

    /// Derives the input type from the extension of the provided file.
    /// Fails if the file has no extension or an unsupported one.
    pub fn from_file(file: &str) -> (r: Result<Self, FileTypeError>)
        ensures
            r == spec_input_type_of_file(file@),
    {
        let ext = get_extension(file)?;
        Self::from_extension(ext.as_str())
    }
}

/// The formats that can be written.
#[derive(Debug, Clone, Copy, PartialEq, Eq)]
pub enum OutputType {
    /// MagicaVoxel, as `.vox`.
    MagicaVoxel,
}

/// The output type for a file extension, if it is supported.
pub open spec fn spec_output_type(ext: Seq<char>) -> Option<OutputType> {
    if ext == "vox"@ {
        Some(OutputType::MagicaVoxel)
    } else {
        None
    }
}

/// The output type the file at `file` has, by its extension.
pub open spec fn spec_output_type_of_file(file: Seq<char>) -> Result<OutputType, FileTypeError> {
    match path_extension_of(file) {
        None => Err(FileTypeError::NoExtension),
        Some(ext) => match spec_output_type(ext) {
            Some(t) => Ok(t),
            None => Err(FileTypeError::UnsupportedExtension),
        },
    }
}

impl OutputType {
    /// Derives the output type from a file extension: `vox` is
    /// MagicaVoxel, anything else is unsupported.
    pub fn from_extension(ext: &str) -> (r: Result<Self, FileTypeError>)
        ensures
            r == (match spec_output_type(ext@) {
                Some(t) => Ok(t),
                None => Err(FileTypeError::UnsupportedExtension),
            }),
    {
        if same_text(ext, "vox") {
            Ok(OutputType::MagicaVoxel)
        } else {
            Err(FileTypeError::UnsupportedExtension)
        }
    }

    /// Derives the output type from the extension of the provided file.
    /// Fails if the file has no extension or an unsupported one.
    pub fn from_file(file: &str) -> (r: Result<Self, FileTypeError>)
        ensures
            r == spec_output_type_of_file(file@),
    {
        let ext = get_extension(file)?;
        Self::from_extension(ext.as_str())
    }
}

} // verus!
