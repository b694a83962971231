//! The trusted boundary around the YAML parser. The scalar events of a text,
//! with their source positions, and the documents of a text as `ColorValue`
//! trees, are deterministic functions of the text alone; they are given names
//! here and every contract above this module speaks through those names.

use vstd::prelude::*;

use crate::color::{ColorNode, ColorValue};

verus! {

/// One scalar event of the configuration scan: the scalar's text and the
/// line (starting at 1) and column (starting at 0) where it begins.
#[derive(Debug)]
pub struct ScalarEvent {
    pub name: String,
    pub line: usize,
    pub col: usize,
}

/// The view of a list of scalar events.
pub open spec fn events_view(evs: Seq<ScalarEvent>) -> Seq<(Seq<char>, int, int)> {
    evs.map_values(|e: ScalarEvent| (e.name@, e.line as int, e.col as int))
}

/// The scalar events of the YAML event stream of `s`, in stream order, or
/// nothing when `s` is not scannable YAML.
pub uninterp spec fn scalar_scan_of(s: Seq<char>) -> Option<Seq<(Seq<char>, int, int)>>;

/// The view of a list of document trees.
pub open spec fn docs_view(docs: Seq<ColorValue>) -> Seq<ColorNode> {
    docs.map_values(|d: ColorValue| d.deep_view())
}

/// The documents of `s` as trees, in document order, or nothing when `s` is
/// not parsable YAML.
pub uninterp spec fn yaml_docs_of(s: Seq<char>) -> Option<Seq<ColorNode>>;

/// The Yaml node type of the yaml_rust parser.
#[verifier::external_type_specification]
#[verifier::external_body]
pub struct ExYaml(yaml_rust::Yaml);

/// Relies on `yaml_rust::parser::Parser`: pumping `next` to the stream's end
/// yields the scalar events of `text` in order, each with the marker of its
/// first character (markers count lines from 1 and columns from 0), or a scan
/// error on text that is not scannable YAML; both the events and whether the
/// scan fails depend on the text alone.
#[verifier::external_body]
pub fn scan_scalars(text: &str) -> (r: Option<Vec<ScalarEvent>>)
    ensures
        (r is Some) == (scalar_scan_of(text@) is Some),
        r matches Some(v) ==> Some(events_view(v@)) == scalar_scan_of(text@),
        r matches Some(v) ==> forall|i: int| 0 <= i < v@.len() ==> (#[trigger] v@[i]).line >= 1,
{
    let mut parser = yaml_rust::parser::Parser::new(text.chars());
    let mut out: Vec<ScalarEvent> = Vec::new();
    loop {
        match parser.next() {
            Ok((yaml_rust::Event::StreamEnd, _)) => return Some(out),
            Ok((yaml_rust::Event::Scalar(name, _, _, _), m)) => {
                out.push(ScalarEvent { name, line: m.line(), col: m.col() });
            }
            Ok(_) => {}
            Err(_) => return None,
        }
    }
}

/// Converts a parsed `yaml_rust::Yaml` node into the tree of this library,
/// kind for kind and entry for entry; the conversion half of
/// `load_yaml_docs`, which alone calls it.
#[verifier::external_body]
fn yaml_node(y: yaml_rust::Yaml) -> ColorValue {
    match y {
        yaml_rust::Yaml::Real(s) => ColorValue::Real(s),
        yaml_rust::Yaml::Integer(i) => ColorValue::Int(i),
        yaml_rust::Yaml::String(s) => ColorValue::Str(s),
        yaml_rust::Yaml::Boolean(b) => ColorValue::Bool(b),
        yaml_rust::Yaml::Array(v) => ColorValue::Sequence(v.into_iter().map(yaml_node).collect()),
        yaml_rust::Yaml::Hash(h) => ColorValue::Mapping(
            h.into_iter().map(|(k, v)| (yaml_node(k), yaml_node(v))).collect(),
        ),
        yaml_rust::Yaml::Alias(a) => ColorValue::Alias(a),
        yaml_rust::Yaml::Null => ColorValue::Null,
        yaml_rust::Yaml::BadValue => ColorValue::Bad,
    }
}

/// Relies on `yaml_rust::YamlLoader::load_from_str`: parsing `text` yields
/// its YAML documents in order (an empty list for an empty stream), or a scan
/// error on text that is not parsable YAML; both the trees and whether the
/// parse fails depend on the text alone.
#[verifier::external_body]
pub fn load_yaml_docs(text: &str) -> (r: Option<Vec<ColorValue>>)
    ensures
        (r is Some) == (yaml_docs_of(text@) is Some),
        r matches Some(v) ==> Some(docs_view(v@)) == yaml_docs_of(text@),
{
    match yaml_rust::YamlLoader::load_from_str(text) {
        Ok(docs) => Some(docs.into_iter().map(yaml_node).collect()),
        Err(_) => None,
    }
}

} // verus!
