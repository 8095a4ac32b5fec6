/// Fetch, flatten and introspection results folded into a response.
pub mod executor;
/// Proved properties of merging and of entity flattening.
pub mod laws;
/// The deep merge of response fragments.
pub mod merge;
/// Paths into input values, as used in validation messages.
pub mod path;
/// Flatten paths: collecting representations and merging entities back.
pub mod plan;
/// Responses and their errors.
pub mod response;
/// Decimal rendering and prefix stripping of text.
pub mod text;
/// Checking input values against the types of a schema.
pub mod validation;
/// The JSON-like value model.
pub mod value;
