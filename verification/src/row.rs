use vstd::prelude::*;
use crate::error::{ErrorModel, ExecError};
use crate::json::{
    json_object, json_object_parse, pairs_map, read_object, values_by_name, write_object,
};
use crate::keys::{
    ascending, find_key, key_seq, keyed_map, lemma_keyed_map_item,
    lemma_sorted_keys, remove_key, sorted_keys, upsert, Keyed,
};
use crate::text::{pair_views, text_views};

verus! {

/// One column of a row: its name and its value.
#[derive(Debug)]
pub struct Field {
    name: String,
    value: String,
}

impl Keyed for Field {
    closed spec fn key_view(&self) -> Seq<char> {
        self.name@
    }

    fn key_text(&self) -> (key: &str) {
        self.name.as_str()
    }
}

/// The fields as the map from column name to value.
pub closed spec fn field_map(fields: Seq<Field>) -> Map<Seq<char>, Seq<char>> {
    Map::new(
        |k: Seq<char>| keyed_map(fields).contains_key(k),
        |k: Seq<char>| keyed_map(fields)[k].value@,
    )
}

/// The error of a stored row that does not decode.
pub open spec fn row_decode_error(detail: Seq<char>) -> ErrorModel {
    ErrorModel::SerializationError("Failed to deserialize row data: "@ + detail)
}

/// The row that a line of JSON holds, or the error that it does not decode.
pub open spec fn decoded_row(text: Seq<char>) -> Result<Map<Seq<char>, Seq<char>>, ErrorModel> {
    match json_object_parse(text) {
        Ok(members) => Ok(members),
        Err(detail) => Err(row_decode_error(detail)),
    }
}

/// A row: a value of text under each of its column names. A column that the
/// row lacks is another thing than a column that holds the text `NULL`.
#[derive(Debug)]
pub struct Row {
    fields: Vec<Field>,
}

impl View for Row {
    type V = Map<Seq<char>, Seq<char>>;

    closed spec fn view(&self) -> Map<Seq<char>, Seq<char>> {
        field_map(self.fields@)
    }
}

/// The views of `rows`, in order.
pub open spec fn row_views(rows: Seq<Row>) -> Seq<Map<Seq<char>, Seq<char>>> {
    Seq::new(rows.len(), |i: int| rows[i]@)
}

impl Row {
    /// The columns are held in strictly ascending order of their names.
    pub closed spec fn wf(&self) -> bool {
        ascending(key_seq(self.fields@))
    }

    /// The column names in ascending order.
    pub closed spec fn names_view(&self) -> Seq<Seq<char>> {
        key_seq(self.fields@)
    }

    /// The names in order are the row's columns, each once.
    pub proof fn lemma_names(&self)
        requires
            self.wf(),
        ensures
            ascending(self.names_view()),
            forall|k: Seq<char>| self.names_view().contains(k) <==> self@.contains_key(k),
            self.names_view() == sorted_keys(self@.dom()),
    {
        lemma_sorted_keys(self.names_view(), self@.dom());
    }

    /// A row without columns.
    pub fn new() -> (row: Self)
        ensures
            row.wf(),
            row@ == Map::<Seq<char>, Seq<char>>::empty(),
    {
        let row = Row { fields: Vec::new() };
        assert(key_seq(row.fields@) =~= Seq::<Seq<char>>::empty());
        assert(row@ =~= Map::<Seq<char>, Seq<char>>::empty());
        row
    }

    /// Puts `value` under the column `name`, in place of what it held.
    pub fn insert(&mut self, name: String, value: String)
        requires
            old(self).wf(),
        ensures
            final(self).wf(),
            final(self)@ == old(self)@.insert(name@, value@),
    {
        let ghost before = self.fields@;
        upsert(&mut self.fields, Field { name, value });
        assert(self@ =~= field_map(before).insert(name@, value@));
    }

    /// Takes the column `name` out of the row.
    pub fn remove(&mut self, name: &str)
        requires
            old(self).wf(),
        ensures
            final(self).wf(),
            final(self)@ == old(self)@.remove(name@),
    {
        let ghost before = self.fields@;
        remove_key(&mut self.fields, name);
        assert(self@ =~= field_map(before).remove(name@));
    }

    /// The value under the column `name`, where the row has the column.
    pub fn get(&self, name: &str) -> (found: Option<&String>)
        requires
            self.wf(),
        ensures
            match found {
                Some(value) => self@.contains_key(name@) && value@ == self@[name@],
                None => !self@.contains_key(name@),
            },
    {
        match find_key(&self.fields, name) {
            Some(at) => {
                proof {
                    lemma_keyed_map_item(self.fields@, at as int);
                }
                Some(&self.fields[at].value)
            },
            None => None,
        }
    }

    /// Whether the row has the column `name`.
    pub fn contains_key(&self, name: &str) -> (has: bool)
        requires
            self.wf(),
        ensures
            has == self@.contains_key(name@),
    {
        match find_key(&self.fields, name) {
            Some(at) => {
                proof {
                    lemma_keyed_map_item(self.fields@, at as int);
                }
                true
            },
            None => false,
        }
    }

    /// The number of columns.
    pub fn len(&self) -> (count: usize)
        ensures
            count == self.names_view().len(),
    {
        self.fields.len()
    }

    /// The column names in ascending order.
    pub fn names(&self) -> (names: Vec<String>)
        ensures
            text_views(names@) == self.names_view(),
    {
        let mut names: Vec<String> = Vec::new();
        let mut i: usize = 0;
        while i < self.fields.len()
            invariant
                i <= self.fields.len(),
                names.len() == i,
                forall|j: int| 0 <= j < i ==> names[j]@ == self.fields[j].name@,
            decreases self.fields.len() - i,
        {
            names.push(self.fields[i].name.clone());
            i = i + 1;
        }
        assert(text_views(names@) =~= self.names_view());
        names
    }

    /// The row as one line of JSON: an object with the columns as members.
    pub fn to_json(&self) -> (text: String)
        requires
            self.wf(),
        ensures
            text@ == json_object(self@),
    {
        let mut names: Vec<String> = Vec::new();
        let mut values: Vec<String> = Vec::new();
        let mut i: usize = 0;
        while i < self.fields.len()
            invariant
                i <= self.fields.len(),
                names.len() == i,
                values.len() == i,
                forall|j: int| 0 <= j < i ==> names[j]@ == self.fields[j].name@,
                forall|j: int| 0 <= j < i ==> values[j]@ == self.fields[j].value@,
            decreases self.fields.len() - i,
        {
            names.push(self.fields[i].name.clone());
            values.push(self.fields[i].value.clone());
            i = i + 1;
        }
        proof {
            self.lemma_names();
            assert(text_views(names@) =~= self.names_view());
            assert forall|j: int| 0 <= j < values.len() implies text_views(values@)[j]
                == values_by_name(self@)[j] by {
                lemma_keyed_map_item(self.fields@, j);
            }
            assert(text_views(values@) =~= values_by_name(self@));
        }
        write_object(&names, &values)
    }

    /// The row that the line of JSON `text` holds: an object whose members
    /// are all strings.
    pub fn from_json(text: &str) -> (parsed: Result<Row, ExecError>)
        ensures
            match parsed {
                Ok(row) => row.wf() && decoded_row(text@) == Ok::<
                    Map<Seq<char>, Seq<char>>,
                    ErrorModel,
                >(row@),
                Err(error) => decoded_row(text@) == Err::<Map<Seq<char>, Seq<char>>, ErrorModel>(
                    error@,
                ),
            },
    {
        match read_object(text) {
            Ok(members) => {
                let mut row = Row::new();
                let ghost all = pair_views(members@);
                let mut i: usize = 0;
                assert(all.subrange(0, 0) =~= Seq::<(Seq<char>, Seq<char>)>::empty());
                while i < members.len()
                    invariant
                        i <= members.len(),
                        all == pair_views(members@),
                        row.wf(),
                        row@ == pairs_map(all.subrange(0, i as int)),
                    decreases members.len() - i,
                {
                    let ghost next = all.subrange(0, i + 1);
                    assert(next.drop_last() =~= all.subrange(0, i as int));
                    assert(next.last() == (members[i as int].0@, members[i as int].1@));
                    row.insert(members[i].0.clone(), members[i].1.clone());
                    i = i + 1;
                }
                assert(all.subrange(0, members.len() as int) =~= all);
                Ok(row)
            },
            Err(detail) => {
                let mut message = "Failed to deserialize row data: ".to_owned();
                vstd::string::StringExecFns::append(&mut message, detail.as_str());
                Err(ExecError::SerializationError(message))
            },
        }
    }
}

impl Clone for Row {
    fn clone(&self) -> (copy: Self)
        ensures
            copy@ == self@,
            self.wf() ==> copy.wf(),
    {
        let mut fields: Vec<Field> = Vec::new();
        let mut i: usize = 0;
        while i < self.fields.len()
            invariant
                i <= self.fields.len(),
                fields.len() == i,
                forall|j: int|
                    0 <= j < i ==> fields[j].name@ == self.fields[j].name@ && fields[j].value@
                        == self.fields[j].value@,
            decreases self.fields.len() - i,
        {
            fields.push(
                Field { name: self.fields[i].name.clone(), value: self.fields[i].value.clone() },
            );
            i = i + 1;
        }
        let copy = Row { fields };
        proof {
            assert(key_seq(copy.fields@) =~= key_seq(self.fields@));
            assert(copy@ =~= self@) by {
                assert forall|k: Seq<char>| copy@.contains_key(k) implies copy@[k] == self@[k] by {
                    let p = crate::keys::position(key_seq(self.fields@), k);
                    assert(0 <= p < self.fields.len());
                }
            }
        }
        copy
    }
}

/// Copies of `rows`, in order.
pub fn copy_rows(rows: &Vec<Row>) -> (copies: Vec<Row>)
    requires
        forall|i: int| 0 <= i < rows.len() ==> (#[trigger] rows[i]).wf(),
    ensures
        row_views(copies@) == row_views(rows@),
        forall|i: int| 0 <= i < copies.len() ==> (#[trigger] copies[i]).wf(),
{
    let mut copies: Vec<Row> = Vec::new();
    let mut i: usize = 0;
    while i < rows.len()
        invariant
            i <= rows.len(),
            copies.len() == i,
            forall|j: int| 0 <= j < rows.len() ==> (#[trigger] rows[j]).wf(),
            forall|j: int| 0 <= j < i ==> (#[trigger] copies[j])@ == rows[j]@ && copies[j].wf(),
        decreases rows.len() - i,
    {
        copies.push(rows[i].clone());
        i = i + 1;
    }
    assert(row_views(copies@) =~= row_views(rows@));
    copies
}

} // verus!
