use vstd::prelude::*;

use crate::json::{parse_document, parsed_of, Json};

verus! {

/// The records that one parsed document contributes: the items of a root
/// array, a root object itself, and nothing for any other document or for
/// bytes that are not JSON.
pub open spec fn records_of(doc: Option<Json>) -> Seq<Json> {
    match doc {
        Some(Json::Array(items)) => items@,
        Some(Json::Object(entries)) => seq![Json::Object(entries)],
        _ => Seq::empty(),
    }
}

/// The records of the documents, in the order of the documents.
pub open spec fn flatten(docs: Seq<Option<Json>>) -> Seq<Json>
    decreases docs.len(),
{
    if docs.len() == 0 {
        Seq::empty()
    } else {
        flatten(docs.drop_last()) + records_of(docs.last())
    }
}

/// The documents that byte strings hold.
pub open spec fn parsed_all(blobs: Seq<Vec<u8>>) -> Seq<Option<Json>> {
    Seq::new(blobs.len(), |i: int| parsed_of(blobs[i]@))
}

/// A document is accepted when its root is an array or an object.
pub open spec fn is_record_source(doc: Option<Json>) -> bool {
    doc matches Some(Json::Array(_)) || doc matches Some(Json::Object(_))
}

/// Appends the records of `doc` to `records`; false where the document is
/// skipped.
pub fn append_document(records: &mut Vec<Json>, doc: Option<Json>) -> (accepted: bool)
    ensures
        final(records)@ == old(records)@ + records_of(doc),
        accepted == is_record_source(doc),
{
    match doc {
        Some(Json::Array(mut items)) => {
            let ghost before = records@;
            let ghost all = items@;
            records.append(&mut items);
            assert(records@ =~= before + all);
            true
        },
        Some(Json::Object(entries)) => {
            records.push(Json::Object(entries));
            true
        },
        _ => false,
    }
}

/// The records of all documents, document after document.
pub fn merge_documents(docs: Vec<Option<Json>>) -> (r: Vec<Json>)
    ensures
        r@ == flatten(docs@),
{
    let ghost all = docs@;
    let mut docs = docs;
    let mut rest: Vec<Option<Json>> = Vec::new();
    while docs.len() > 0
        invariant
            docs@ == all.subrange(0, docs@.len() as int),
            rest@.len() == all.len() - docs@.len(),
            forall|j: int| 0 <= j < rest@.len() ==> #[trigger] rest@[j] == all[all.len() - 1 - j],
        decreases docs.len(),
    {
        let d = docs.pop().unwrap();
        rest.push(d);
        assert(docs@ =~= all.subrange(0, docs@.len() as int));
    }
    let mut out: Vec<Json> = Vec::new();
    let ghost mut k: int = 0;
    assert(out@ =~= flatten(all.subrange(0, 0)));
    while rest.len() > 0
        invariant
            0 <= k <= all.len(),
            rest@.len() == all.len() - k,
            forall|j: int| 0 <= j < rest@.len() ==> #[trigger] rest@[j] == all[all.len() - 1 - j],
            out@ == flatten(all.subrange(0, k)),
        decreases rest.len(),
    {
        let d = rest.pop().unwrap();
        assert(all.subrange(0, k + 1).drop_last() =~= all.subrange(0, k));
        append_document(&mut out, d);
        proof {
            k = k + 1;
        }
    }
    assert(all.subrange(0, k) =~= all);
    out
}

/// Reads each byte string as a JSON document and merges their records,
/// document after document; a byte string that holds no array or object
/// adds nothing.
pub fn merge_raw_documents(blobs: &Vec<Vec<u8>>) -> (r: Vec<Json>)
    ensures
        r@ == flatten(parsed_all(blobs@)),
{
    let mut docs: Vec<Option<Json>> = Vec::new();
    let mut i: usize = 0;
    while i < blobs.len()
        invariant
            i <= blobs.len(),
            docs@ == parsed_all(blobs@).subrange(0, i as int),
        decreases blobs.len() - i,
    {
        let d = parse_document(blobs[i].as_slice());
        docs.push(d);
        i = i + 1;
        assert(docs@ =~= parsed_all(blobs@).subrange(0, i as int));
    }
    assert(docs@ =~= parsed_all(blobs@));
    merge_documents(docs)
}

} // verus!
