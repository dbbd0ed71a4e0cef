//! Forms with files.
use crate::json;
use crate::json::{Json, Tree};
use crate::text;
use crate::text_map::TextMap;
use vstd::prelude::*;

verus! {

/// Whether a request holds a form with files.
pub fn is_multipart(content_type: &str) -> (r: bool)
    ensures
        r == text::occurs_at(content_type@, "multipart/form-data"@, 0),
{
    text::starts_with(content_type, "multipart/form-data")
}

/// A field of a form.
pub enum FormField {
    /// A file, by the path that it was kept under.
    Upload(String),
    /// A value: what its text says, or the text itself.
    Value { name: String, value: Json },
}

/// Whether a field of this name holds a file.
pub fn is_upload(name: &str) -> (r: bool)
    ensures
        r == (name@ == "files"@),
{
    text::same(name, "files")
}

/// The value of a field: what its text says where it is JSON, else the text.
pub fn field_value(parsed: Option<Json>, text: String) -> (r: Json)
    ensures
        r == match parsed {
            Some(value) => value,
            None => Json::Text(text),
        },
{
    match parsed {
        Some(value) => value,
        None => Json::Text(text),
    }
}

/// The values of the fields by their names. Of two with one name the last counts.
pub open spec fn values_of(fields: Seq<FormField>) -> Map<Seq<char>, Json>
    decreases fields.len(),
{
    if fields.len() == 0 {
        Map::empty()
    } else {
        let known = values_of(fields.drop_last());
        match fields.last() {
            FormField::Upload(_) => known,
            FormField::Value { name, value } => known.insert(name@, value),
        }
    }
}

/// The paths of the files, in their order.
pub open spec fn uploads_of(fields: Seq<FormField>) -> Seq<Seq<char>>
    decreases fields.len(),
{
    if fields.len() == 0 {
        Seq::empty()
    } else {
        let known = uploads_of(fields.drop_last());
        match fields.last() {
            FormField::Upload(path) => known.push(path@),
            FormField::Value { .. } => known,
        }
    }
}

/// The paths as a value.
pub open spec fn paths_tree(paths: Seq<Seq<char>>) -> Tree {
    Tree::Array(Seq::new(paths.len(), |i: int| Tree::Text(paths[i])))
}

/// What a form says: its values, and under `paths` the files that came with it.
pub fn assemble_form(fields: Vec<FormField>) -> (r: TextMap<Json>)
    ensures
        ({
            let values = values_of(fields@);
            let uploads = uploads_of(fields@);
            &&& uploads.len() == 0 ==> r@ == values
            &&& uploads.len() > 0 ==> {
                &&& r@.dom() == values.dom().insert("paths"@)
                &&& r@["paths"@].tree() == paths_tree(uploads)
                &&& forall|name: Seq<char>|
                    name != "paths"@ && #[trigger] values.contains_key(name) ==> r@[name]
                        == values[name]
            }
        }),
{
    let mut rest = fields;
    let ghost all = rest@;
    let ghost mut done: int = 0;
    let mut values: TextMap<Json> = TextMap::new();
    let mut uploads: Vec<Json> = Vec::new();
    assert(all.take(0) =~= Seq::empty());
    assert(all.skip(0) =~= all);
    while rest.len() > 0
        invariant
            0 <= done <= all.len(),
            rest@ == all.skip(done),
            values@ == values_of(all.take(done)),
            uploads@.len() == uploads_of(all.take(done)).len(),
            forall|i: int|
                0 <= i < uploads@.len() ==> (#[trigger] uploads@[i]).tree() == Tree::Text(
                    uploads_of(all.take(done))[i],
                ),
        decreases rest@.len(),
    {
        let field = rest.remove(0);
        proof {
            assert(field == all[done]);
            assert(all.skip(done).remove(0) =~= all.skip(done + 1));
            assert(all.take(done + 1).drop_last() =~= all.take(done));
            done = done + 1;
        }
        match field {
            FormField::Upload(path) => {
                uploads.push(Json::Text(path));
            },
            FormField::Value { name, value } => {
                values = values.with(name, value);
            },
        }
    }
    assert(all.take(done) =~= all);
    if uploads.len() == 0 {
        return values;
    }
    let ghost paths = uploads_of(all);
    let list = Json::array(uploads);
    assert(json::trees(uploads@) =~= Seq::new(paths.len(), |i: int| Tree::Text(paths[i])));
    values.with("paths".to_owned(), list)
}

/// One field more. A file is behind those before it and sets no value; a value is the one of its
/// name from then on, changes no other and is no file.
pub proof fn lemma_a_field_more(fields: Seq<FormField>, field: FormField, other: Seq<char>)
    ensures
        field matches FormField::Upload(path) ==> uploads_of(fields.push(field)) == uploads_of(
            fields,
        ).push(path@) && values_of(fields.push(field)) == values_of(fields),
        field matches FormField::Value { name, value } ==> uploads_of(fields.push(field))
            == uploads_of(fields) && values_of(fields.push(field)).contains_key(name@)
            && values_of(fields.push(field))[name@] == value && (other != name@ ==> (values_of(
            fields.push(field),
        ).contains_key(other) <==> values_of(fields).contains_key(other)) && (values_of(
            fields,
        ).contains_key(other) ==> values_of(fields.push(field))[other] == values_of(
            fields,
        )[other])),
        uploads_of(Seq::<FormField>::empty()).len() == 0,
        values_of(Seq::<FormField>::empty()) == Map::<Seq<char>, Json>::empty(),
{
    assert(fields.push(field).drop_last() =~= fields);
}

} // verus!
