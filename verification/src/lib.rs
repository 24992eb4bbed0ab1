use vstd::prelude::*;

pub mod decode;
pub mod laws;
pub mod render;
pub mod resolve;
pub mod text;
pub mod value;

pub use decode::DecodeError;
pub use resolve::get_nested_value;
pub use value::Json;

verus! {

/// What one render call is worth: the rendered text when the document
/// text decodes, nothing when it does not.
pub open spec fn render_result_spec(doc_text: Seq<char>, template: Seq<char>) -> Option<
    Seq<char>,
> {
    match decode::json_parse(doc_text) {
        Some(doc) => Some(render::render_spec(doc, template)),
        None => None,
    }
}

/// Renders the markdown template against the decoded document text:
/// spread markers first, then scalar markers, each replaced by the value
/// its dot-separated path reaches, and left as they stand when the path
/// misses. Fails exactly when the document text cannot be decoded.
pub fn json_to_markdown(json_data: &str, markdown: &str) -> (r: Result<String, DecodeError>)
    ensures
        match r {
            Ok(out) => render_result_spec(json_data@, markdown@) == Some(out@),
            Err(_) => render_result_spec(json_data@, markdown@) is None,
        },
{
    let doc = match decode::decode_document(json_data) {
        Ok(v) => v,
        Err(e) => {
            return Err(e);
        },
    };
    let template = resolve::str_to_chars(markdown);
    let out = render::render_chars(&doc, &template);
    Ok(decode::chars_to_string(&out))
}

/// Rendering is deterministic: one and the same document text and
/// template admit one and the same outcome, byte for byte.
pub proof fn lemma_render_deterministic(
    doc_text: Seq<char>,
    template: Seq<char>,
    r1: Option<Seq<char>>,
    r2: Option<Seq<char>>,
)
    requires
        r1 == render_result_spec(doc_text, template),
        r2 == render_result_spec(doc_text, template),
    ensures
        r1 == r2,
{
}

} // verus!
