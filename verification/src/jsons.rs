//! Record arguments given as JSON text.
//!
//! A record-typed argument arrives as the text of a JSON object.  The
//! parsing itself is serde_json's; the library sees the document as a map
//! from field names to the canonical rendering of each field's value, both
//! as UTF-8 bytes, and looks fields up by the declared names.

use vstd::prelude::*;

use crate::strutil::bytes_eq;

verus! {

/// Whether serde_json parses these bytes as a JSON document.
pub uninterp spec fn json_is_valid(s: Seq<u8>) -> bool;

/// The top-level object a JSON document denotes, if it is an object: each
/// field name mapped to the canonical rendering (serde_json's `to_string`)
/// of its value, both as UTF-8 bytes.  `None` for a document that is valid
/// JSON but not an object.
pub uninterp spec fn json_obj_of(s: Seq<u8>) -> Option<Map<Seq<u8>, Seq<u8>>>;

/// The map a list of name/rendering pairs denotes, later pairs winning.
pub open spec fn pairs_map(ps: Seq<(Vec<u8>, Vec<u8>)>) -> Map<Seq<u8>, Seq<u8>>
    decreases ps.len(),
{
    if ps.len() == 0 {
        Map::<Seq<u8>, Seq<u8>>::empty()
    } else {
        pairs_map(ps.drop_last()).insert(ps.last().0@, ps.last().1@)
    }
}

/// Relies on serde_json: `from_slice` parses the document (failure gives
/// `None`); `Value::as_object` tells an object from any other document
/// (`Some(None)`); for an object, each field's name is paired with
/// `to_string` of its value.  With serde_json's default (ordered) map the
/// rendering is a function of the input bytes alone.
#[verifier::external_body]
fn parse_json_object(s: &[u8]) -> (r: Option<Option<Vec<(Vec<u8>, Vec<u8>)>>>)
    ensures
        r is Some <==> json_is_valid(s@),
        r matches Some(doc) ==> (doc is Some <==> json_obj_of(s@) is Some),
        r matches Some(doc) ==> (doc matches Some(ps) ==> json_obj_of(s@) == Some(pairs_map(ps@))),
{
    let v: serde_json::Value = serde_json::from_slice(s).ok()?;
    let fields = v.as_object().map(|m| {
        m.iter().map(|(k, val)| (k.as_bytes().to_vec(), val.to_string().into_bytes())).collect()
    });
    Some(fields)
}

/// What the encoder sees of a record argument's text.
pub enum JsonDoc {
    /// Not valid JSON.
    Invalid,
    /// Valid JSON but not an object.
    NotAnObject,
    /// An object, as name/rendering pairs.
    Object(Vec<(Vec<u8>, Vec<u8>)>),
}

/// Parse a record argument's text.
pub fn parse_record_text(s: &[u8]) -> (r: JsonDoc)
    ensures
        r is Invalid <==> !json_is_valid(s@),
        r is NotAnObject <==> (json_is_valid(s@) && json_obj_of(s@) is None),
        r matches JsonDoc::Object(ps) ==> json_obj_of(s@) == Some(pairs_map(ps@)),
{
    match parse_json_object(s) {
        None => JsonDoc::Invalid,
        Some(None) => JsonDoc::NotAnObject,
        Some(Some(ps)) => JsonDoc::Object(ps),
    }
}

/// Look a field up by name; the last pair of that name wins, as in the map.
pub fn lookup_field<'a>(ps: &'a Vec<(Vec<u8>, Vec<u8>)>, name: &[u8]) -> (r: Option<&'a Vec<u8>>)
    ensures
        r is Some <==> pairs_map(ps@).contains_key(name@),
        r matches Some(v) ==> pairs_map(ps@).contains_key(name@) && pairs_map(ps@)[name@] == v@,
{
    let mut i: usize = ps.len();
    proof {
        assert(ps@.take(ps@.len() as int) =~= ps@);
    }
    while i > 0
        invariant
            0 <= i <= ps@.len(),
            pairs_map(ps@).contains_key(name@) <==> pairs_map(ps@.take(i as int)).contains_key(
                name@,
            ),
            pairs_map(ps@).contains_key(name@) ==> pairs_map(ps@)[name@] == pairs_map(
                ps@.take(i as int),
            )[name@],
        decreases i,
    {
        i = i - 1;
        proof {
            assert(ps@.take(i + 1).drop_last() =~= ps@.take(i as int));
            assert(ps@.take(i + 1).last() == ps@[i as int]);
        }
        if bytes_eq(ps[i].0.as_slice(), name) {
            return Some(&ps[i].1);
        }
    }
    proof {
        assert(ps@.take(0) =~= Seq::<(Vec<u8>, Vec<u8>)>::empty());
    }
    None
}

} // verus!
