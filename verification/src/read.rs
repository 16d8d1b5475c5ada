//! From the bytes of a table of `hero,comic` rows to the comics with their
//! members.
//!
//! The bytes are split into rows by the `csv` crate; the rows are grouped
//! here. A row that does not have exactly two fields is left out and
//! counted.

use crate::model::Name;
use crate::model::names_of;
use vstd::prelude::*;

verus! {

/// `csv::Error`, opaque: it is carried from the reader to `error_text`.
#[verifier::external_type_specification]
#[verifier::external_body]
pub struct ExCsvError(csv::Error);

/// The rows that the `csv` crate reads from `bytes`, each as its fields, or
/// `None` where it reports an error.
pub uninterp spec fn csv_rows(bytes: Seq<u8>) -> Option<Seq<Seq<Seq<char>>>>;

/// The comics read from a table, and how many rows were left out.
#[derive(Debug)]
pub struct Edges {
    pub comics: Vec<(String, Vec<String>)>,
    pub skipped: usize,
}

/// Why a table could not be read.
#[derive(Debug)]
pub struct ReadError {
    pub message: String,
}

/// The rows of a table, each as the names in its fields.
pub open spec fn rows_of(rows: Seq<Vec<String>>) -> Seq<Seq<Name>> {
    rows.map_values(|r: Vec<String>| names_of(r@))
}

/// The comics that the rows of two fields name, each once, in the order of
/// first appearance. The comic is the second field.
pub open spec fn keys_of(rows: Seq<Seq<Name>>) -> Seq<Name>
    decreases rows.len(),
{
    if rows.len() == 0 {
        Seq::empty()
    } else {
        let before = keys_of(rows.drop_last());
        let row = rows.last();
        if row.len() == 2 && !before.contains(row[1]) {
            before.push(row[1])
        } else {
            before
        }
    }
}

/// The heroes that the rows of two fields give to the comic `key`, in row
/// order. The hero is the first field.
pub open spec fn heroes_of(rows: Seq<Seq<Name>>, key: Name) -> Seq<Name>
    decreases rows.len(),
{
    if rows.len() == 0 {
        Seq::empty()
    } else {
        let before = heroes_of(rows.drop_last(), key);
        let row = rows.last();
        if row.len() == 2 && row[1] == key {
            before.push(row[0])
        } else {
            before
        }
    }
}

/// How many rows do not have exactly two fields.
pub open spec fn skipped_of(rows: Seq<Seq<Name>>) -> nat
    decreases rows.len(),
{
    if rows.len() == 0 {
        0
    } else {
        skipped_of(rows.drop_last()) + if rows.last().len() == 2 {
            0nat
        } else {
            1nat
        }
    }
}

/// Whether `comics` are the rows grouped: one entry for each comic named,
/// in the order of first appearance, with its heroes in row order.
pub open spec fn grouped(rows: Seq<Seq<Name>>, comics: Seq<(String, Vec<String>)>) -> bool {
    &&& comics.len() == keys_of(rows).len()
    &&& forall|i: int|
        0 <= i < comics.len() ==> (#[trigger] comics[i]).0@ == keys_of(rows)[i] && names_of(
            comics[i].1@,
        ) == heroes_of(rows, keys_of(rows)[i])
}

/// No comic is a key twice, and a comic that is no key has no heroes.
pub proof fn lemma_keys(rows: Seq<Seq<Name>>)
    ensures
        keys_of(rows).no_duplicates(),
        forall|key: Name| !keys_of(rows).contains(key) ==> heroes_of(rows, key).len() == 0,
        skipped_of(rows) <= rows.len(),
    decreases rows.len(),
{
    if rows.len() > 0 {
        let init = rows.drop_last();
        let row = rows.last();
        lemma_keys(init);
        let before = keys_of(init);
        assert forall|key: Name| !keys_of(rows).contains(key) implies heroes_of(rows, key).len()
            == 0 by {
            if before.contains(key) {
                let i = choose|i: int| 0 <= i < before.len() && before[i] == key;
                assert(keys_of(rows)[i] == key);
            }
            if row.len() == 2 && row[1] == key {
                if !before.contains(key) {
                    assert(keys_of(rows)[before.len() as int] == key);
                }
            }
        }
    }
}

/// The position of the comic `key` among `comics`, if it is there.
fn find_key(comics: &Vec<(String, Vec<String>)>, key: &String) -> (r: Option<usize>)
    ensures
        match r {
            Some(i) => i < comics@.len() && comics@[i as int].0@ == key@,
            None => forall|j: int| 0 <= j < comics@.len() ==> (#[trigger] comics@[j]).0@ != key@,
        },
{
    let mut i: usize = 0;
    while i < comics.len()
        invariant
            i <= comics.len(),
            forall|j: int| 0 <= j < i ==> (#[trigger] comics@[j]).0@ != key@,
        decreases comics.len() - i,
    {
        if comics[i].0 == *key {
            return Some(i);
        }
        i += 1;
    }
    None
}

/// Groups rows of `hero, comic` by comic. The comics come in the order of
/// first appearance, the heroes of each in row order, repeated where the
/// rows repeat them. Rows that do not have exactly two fields are left out
/// and counted.
pub fn group_rows(rows: &Vec<Vec<String>>) -> (out: Edges)
    ensures
        grouped(rows_of(rows@), out.comics@),
        out.skipped == skipped_of(rows_of(rows@)),
{
    let ghost rv = rows_of(rows@);
    let mut comics: Vec<(String, Vec<String>)> = Vec::new();
    let mut skipped: usize = 0;
    let mut i: usize = 0;
    proof {
        assert(rv.take(0) =~= Seq::<Seq<Name>>::empty());
    }
    while i < rows.len()
        invariant
            i <= rows.len(),
            rv == rows_of(rows@),
            grouped(rv.take(i as int), comics@),
            skipped == skipped_of(rv.take(i as int)),
            skipped <= i,
        decreases rows.len() - i,
    {
        let ghost done = rv.take(i as int);
        let ghost next = rv.take(i + 1);
        let ghost keys = keys_of(done);
        let ghost old_comics = comics@;
        let row = &rows[i];
        proof {
            assert(next.drop_last() =~= done);
            assert(next.last() == names_of(row@));
            lemma_keys(done);
        }
        if row.len() == 2 {
            let hero = &row[0];
            let key = &row[1];
            proof {
                assert(names_of(row@)[0] == hero@);
                assert(names_of(row@)[1] == key@);
            }
            match find_key(&comics, key) {
                Some(j) => {
                    comics[j].1.push(hero.clone());
                    proof {
                        assert(keys[j as int] == key@);
                        assert(keys.contains(key@));
                        assert(keys_of(next) == keys);
                        assert(names_of(comics@[j as int].1@) =~= names_of(
                            old_comics[j as int].1@,
                        ).push(hero@));
                        assert forall|k: int| 0 <= k < comics@.len() implies (
                        #[trigger] comics@[k]).0@ == keys_of(next)[k] && names_of(comics@[k].1@)
                            == heroes_of(next, keys_of(next)[k]) by {
                            if k != j {
                                assert(comics@[k] == old_comics[k]);
                                assert(keys[k] != keys[j as int]);
                            }
                        }
                    }
                },
                None => {
                    let mut members: Vec<String> = Vec::new();
                    members.push(hero.clone());
                    comics.push((key.clone(), members));
                    proof {
                        assert(!keys.contains(key@)) by {
                            if keys.contains(key@) {
                                let k = choose|k: int| 0 <= k < keys.len() && keys[k] == key@;
                                assert(old_comics[k].0@ == key@);
                            }
                        }
                        assert(keys_of(next) == keys.push(key@));
                        assert(names_of(members@) =~= Seq::<Name>::empty().push(hero@));
                        assert(heroes_of(done, key@) =~= Seq::<Name>::empty());
                        assert forall|k: int| 0 <= k < comics@.len() implies (
                        #[trigger] comics@[k]).0@ == keys_of(next)[k] && names_of(comics@[k].1@)
                            == heroes_of(next, keys_of(next)[k]) by {
                            if k < old_comics.len() {
                                assert(comics@[k] == old_comics[k]);
                                assert(keys.contains(keys[k]));
                            }
                        }
                    }
                },
            }
        } else {
            skipped += 1;
            proof {
                assert(names_of(row@).len() != 2);
            }
        }
        i += 1;
    }
    proof {
        assert(rv.take(i as int) =~= rv);
    }
    Edges { comics, skipped }
}

/// A `csv` reader over `bytes` that takes the first row as data and accepts
/// rows of any length (`ReaderBuilder` with `has_headers(false)` and
/// `flexible(true)`, then `from_reader`), read to its end with
/// `Reader::records`. The rows come as the crate splits them, up to the
/// first error, which is returned in their place.
#[verifier::external_body]
fn parse_rows(bytes: &[u8]) -> (r: Result<Vec<Vec<String>>, csv::Error>)
    ensures
        match r {
            Ok(rows) => csv_rows(bytes@) == Some(rows_of(rows@)),
            Err(_) => csv_rows(bytes@).is_none(),
        },
{
    let mut reader = csv::ReaderBuilder::new().has_headers(false).flexible(true).from_reader(bytes);
    reader.records().map(|row| row.map(|fields| fields.iter().map(String::from).collect())).collect()
}

/// The text that `csv::Error` displays.
#[verifier::external_body]
fn error_text(error: &csv::Error) -> String {
    format!("{}", error)
}

/// Reads the comics from the bytes of a table without header row. Where
/// the `csv` crate reads the rows, they are grouped as `group_rows` does;
/// where it reports an error, that error's text is returned.
pub fn read_edges(bytes: &[u8]) -> (r: Result<Edges, ReadError>)
    ensures
        match csv_rows(bytes@) {
            Some(rows) => r matches Ok(out) && grouped(rows, out.comics@) && out.skipped
                == skipped_of(rows),
            None => r is Err,
        },
{
    match parse_rows(bytes) {
        Ok(rows) => Ok(group_rows(&rows)),
        Err(error) => Err(ReadError { message: error_text(&error) }),
    }
}

} // verus!
