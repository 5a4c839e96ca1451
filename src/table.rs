use vstd::prelude::*;

use crate::error::ParseError;
use crate::value::Value;

verus! {

/// No two entries of a table share a key.
pub open spec fn keys_unique(t: Seq<(String, Value)>) -> bool {
    forall|i: int, j: int|
        0 <= i < t.len() && 0 <= j < t.len() && i != j ==> (#[trigger] t[i]).0@ != (
        #[trigger] t[j]).0@
}

pub open spec fn has_key(t: Seq<(String, Value)>, k: Seq<char>) -> bool {
    exists|i: int| 0 <= i < t.len() && (#[trigger] t[i]).0@ == k
}

/// Where `k` stands in a table, if it is there.
pub fn find_key(t: &Vec<(String, Value)>, k: &String) -> (r: Option<usize>)
    ensures
        r matches Some(i) ==> i < t@.len() && t@[i as int].0@ == k@,
        r is None <==> !has_key(t@, k@),
{
    let mut i: usize = 0;
    while i < t.len()
        invariant
            i <= t@.len(),
            forall|j: int| 0 <= j < i ==> (#[trigger] t@[j]).0@ != k@,
        decreases t@.len() - i,
    {
        if t[i].0 == *k {
            return Some(i);
        }
        i = i + 1;
    }
    None
}

proof fn lemma_push_unique(t: Seq<(String, Value)>, e: (String, Value))
    requires
        keys_unique(t),
        !has_key(t, e.0@),
    ensures
        keys_unique(t.push(e)),
{
    assert forall|i: int, j: int|
        0 <= i < t.len() + 1 && 0 <= j < t.len() + 1 && i != j implies (#[trigger] t.push(e)[i]).0@
        != (#[trigger] t.push(e)[j]).0@ by {
        if i == t.len() {
            assert(t.push(e)[j] == t[j]);
        } else if j == t.len() {
            assert(t.push(e)[i] == t[i]);
        } else {
            assert(t.push(e)[i] == t[i]);
            assert(t.push(e)[j] == t[j]);
        }
    }
}

proof fn lemma_same_keys_unique(a: Seq<(String, Value)>, b: Seq<(String, Value)>)
    requires
        keys_unique(a),
        a.len() == b.len(),
        forall|i: int| 0 <= i < a.len() ==> (#[trigger] a[i]).0@ == b[i].0@,
    ensures
        keys_unique(b),
{
    assert forall|i: int, j: int|
        0 <= i < b.len() && 0 <= j < b.len() && i != j implies (#[trigger] b[i]).0@ != (
        #[trigger] b[j]).0@ by {
        assert(a[i].0@ == b[i].0@);
        assert(a[j].0@ == b[j].0@);
    }
}

/// Puts back the entry taken out at `idx`, with its key and a new value.
fn put_back(t: &mut Vec<(String, Value)>, idx: usize, k: String, v: Value, Ghost(orig): Ghost<
    Seq<(String, Value)>,
>)
    requires
        idx < orig.len(),
        old(t)@ == orig.remove(idx as int),
        orig[idx as int].0 == k,
    ensures
        final(t)@ == orig.update(idx as int, (k, v)),
        keys_unique(orig) ==> keys_unique(final(t)@),
{
    t.insert(idx, (k, v));
    proof {
        assert(t@ =~= orig.update(idx as int, (k, v)));
        if keys_unique(orig) {
            lemma_same_keys_unique(orig, t@);
        }
    }
}

/// What a step through the key at `j` of `old_t` (not the last key of a
/// path) does: it goes into a table, or into the last table of an array of
/// tables, and leaves every other entry alone; on any other value it fails.
pub open spec fn stepped_into(
    old_t: Seq<(String, Value)>,
    new_t: Seq<(String, Value)>,
    j: int,
    ok: bool,
) -> bool {
    let others_kept = new_t.len() == old_t.len() && new_t[j].0 == old_t[j].0 && forall|m: int|
        0 <= m < old_t.len() && m != j ==> new_t[m] == old_t[m];
    match old_t[j].1 {
        Value::Table(_) => ok ==> others_kept && new_t[j].1 is Table,
        Value::TableArray(a) => if a@.len() > 0 && a@.last() is Table {
            ok ==> others_kept && (new_t[j].1 matches Value::TableArray(b) && b@.len() == a@.len()
                && b@.drop_last() == a@.drop_last() && b@.last() is Table)
        } else {
            !ok
        },
        _ => !ok,
    }
}

/// Stores `v` at the key path `path[i..]` below the table `t`, creating the
/// tables in between; a step through an array of tables goes into its last
/// table. Fails where the last key is already there, or a step meets a value
/// that is no table.
pub fn insert_value(
    t: &mut Vec<(String, Value)>,
    path: &Vec<String>,
    i: usize,
    v: Value,
    line: usize,
    col: usize,
) -> (r: Result<(), ParseError>)
    requires
        i < path@.len(),
    ensures
        keys_unique(old(t)@) ==> keys_unique(final(t)@),
        i + 1 == path@.len() ==> (r is Ok <==> !has_key(old(t)@, path@[i as int]@)),
        i + 1 == path@.len() && r is Ok ==> final(t)@ == old(t)@.push((path@[i as int], v)),
        i + 1 < path@.len() && !has_key(old(t)@, path@[i as int]@) && r is Ok ==> {
            &&& final(t)@.drop_last() == old(t)@
            &&& final(t)@.len() == old(t)@.len() + 1
            &&& final(t)@.last().0@ == path@[i as int]@
            &&& final(t)@.last().1 is Table
        },
        i + 1 < path@.len() && keys_unique(old(t)@) ==> forall|j: int|
            0 <= j < old(t)@.len() && (#[trigger] old(t)@[j]).0@ == path@[i as int]@
                ==> stepped_into(old(t)@, final(t)@, j, r is Ok),
        r is Err ==> (r->Err_0 matches ParseError::DuplicateKey(_, l, c) && l == line && c == col),
        i + 1 == path@.len() && r is Err ==> (r->Err_0 matches ParseError::DuplicateKey(k, _, _)
            && k@ == path@[i as int]@),
    decreases path@.len() - i,
{
    let n = path.len();
    let found = find_key(t, &path[i]);
    if i + 1 == n {
        match found {
            Some(_) => {
                return Err(ParseError::DuplicateKey(path[i].clone(), line, col));
            },
            None => {
                proof {
                    if keys_unique(t@) {
                        lemma_push_unique(t@, (path@[i as int], v));
                    }
                }
                t.push((path[i].clone(), v));
                return Ok(());
            },
        }
    }
    match found {
        None => {
            let mut inner: Vec<(String, Value)> = Vec::new();
            let r = insert_value(&mut inner, path, i + 1, v, line, col);
            if r.is_err() {
                return r;
            }
            proof {
                if keys_unique(t@) {
                    lemma_push_unique(t@, (path@[i as int], Value::Table(inner)));
                }
            }
            t.push((path[i].clone(), Value::Table(inner)));
            proof {
                assert(t@.drop_last() =~= old(t)@);
            }
            Ok(())
        },
        Some(idx) => {
            let ghost orig = t@;
            proof {
                if keys_unique(orig) {
                    assert forall|j: int|
                        0 <= j < orig.len() && (#[trigger] orig[j]).0@ == path@[i as int]@ implies j
                        == idx by {
                        if j != idx {
                            assert(orig[j].0@ != orig[idx as int].0@);
                        }
                    }
                }
            }
            let (k, val) = t.remove(idx);
            match val {
                Value::Table(mut inner) => {
                    let r = insert_value(&mut inner, path, i + 1, v, line, col);
                    put_back(t, idx, k, Value::Table(inner), Ghost(orig));
                    r
                },
                Value::TableArray(mut arr) => {
                    let ghost before = arr@;
                    let r = match arr.pop() {
                        Some(Value::Table(mut inner)) => {
                            let r = insert_value(&mut inner, path, i + 1, v, line, col);
                            arr.push(Value::Table(inner));
                            proof {
                                assert(arr@.drop_last() =~= before.drop_last());
                            }
                            r
                        },
                        Some(other) => {
                            arr.push(other);
                            Err(ParseError::DuplicateKey(path[i].clone(), line, col))
                        },
                        None => Err(ParseError::DuplicateKey(path[i].clone(), line, col)),
                    };
                    put_back(t, idx, k, Value::TableArray(arr), Ghost(orig));
                    r
                },
                other => {
                    put_back(t, idx, k, other, Ghost(orig));
                    Err(ParseError::DuplicateKey(path[i].clone(), line, col))
                },
            }
        },
    }
}


pub open spec fn is_empty_table(v: Value) -> bool {
    v matches Value::Table(x) && x@.len() == 0
}

/// What a header opens when its last key `k` is new in `t`: a table, or an
/// array that holds one table.
pub open spec fn opened_fresh(old_t: Seq<(String, Value)>, new_t: Seq<(String, Value)>, k: Seq<char>, array: bool) -> bool {
    &&& new_t.len() == old_t.len() + 1
    &&& new_t.drop_last() == old_t
    &&& new_t.last().0@ == k
    &&& if array {
        new_t.last().1 matches Value::TableArray(a) && a@.len() == 1 && is_empty_table(a@[0])
    } else {
        is_empty_table(new_t.last().1)
    }
}

/// What a header does when its last key stands at `j` in `t`.
pub open spec fn opened_existing(
    old_t: Seq<(String, Value)>,
    new_t: Seq<(String, Value)>,
    j: int,
    array: bool,
    ok: bool,
) -> bool {
    match old_t[j].1 {
        Value::Table(_) => (ok <==> !array) && (ok ==> new_t == old_t),
        Value::TableArray(a) => (ok <==> array) && (ok ==> {
            &&& new_t.len() == old_t.len()
            &&& new_t[j].0 == old_t[j].0
            &&& new_t[j].1 matches Value::TableArray(b) && b@.drop_last() == a@ && b@.len() == a@.len() + 1 && is_empty_table(b@.last())
            &&& forall|m: int| 0 <= m < old_t.len() && m != j ==> new_t[m] == old_t[m]
        }),
        _ => !ok,
    }
}

/// Opens the table that a header `[path]` (or `[[path]]` where `array`)
/// names below `t`, creating what is missing. At the last key a table header
/// takes an existing table and an array header appends a new table to an
/// existing array of tables; any other value there, or on the way, fails.
pub fn open_header(
    t: &mut Vec<(String, Value)>,
    path: &Vec<String>,
    i: usize,
    array: bool,
    line: usize,
    col: usize,
) -> (r: Result<(), ParseError>)
    requires
        i < path@.len(),
    ensures
        keys_unique(old(t)@) ==> keys_unique(final(t)@),
        i + 1 < path@.len() && keys_unique(old(t)@) ==> forall|j: int|
            0 <= j < old(t)@.len() && (#[trigger] old(t)@[j]).0@ == path@[i as int]@
                ==> stepped_into(old(t)@, final(t)@, j, r is Ok),
        i + 1 == path@.len() && !has_key(old(t)@, path@[i as int]@) ==> r is Ok && opened_fresh(
            old(t)@,
            final(t)@,
            path@[i as int]@,
            array,
        ),
        i + 1 == path@.len() && keys_unique(old(t)@) ==> forall|j: int|
            0 <= j < old(t)@.len() && (#[trigger] old(t)@[j]).0@ == path@[i as int]@
                ==> opened_existing(old(t)@, final(t)@, j, array, r is Ok),
        r is Err ==> (r->Err_0 matches ParseError::DuplicateKey(_, l, c) && l == line && c == col),
    decreases path@.len() - i,
{
    let n = path.len();
    let found = find_key(t, &path[i]);
    match found {
        None => {
            let mut inner: Vec<(String, Value)> = Vec::new();
            if i + 1 < n {
                let r = open_header(&mut inner, path, i + 1, array, line, col);
                if r.is_err() {
                    return r;
                }
            }
            let fresh = if i + 1 == n && array {
                let mut arr: Vec<Value> = Vec::new();
                arr.push(Value::Table(inner));
                Value::TableArray(arr)
            } else {
                Value::Table(inner)
            };
            proof {
                if keys_unique(t@) {
                    lemma_push_unique(t@, (path@[i as int], fresh));
                }
            }
            t.push((path[i].clone(), fresh));
            proof {
                assert(t@.drop_last() =~= old(t)@);
            }
            Ok(())
        },
        Some(idx) => {
            let ghost orig = t@;
            proof {
                if keys_unique(orig) {
                    assert forall|j: int|
                        0 <= j < orig.len() && (#[trigger] orig[j]).0@ == path@[i as int]@ implies j
                        == idx by {
                        if j != idx {
                            assert(orig[j].0@ != orig[idx as int].0@);
                        }
                    }
                }
            }
            let (k, val) = t.remove(idx);
            match val {
                Value::Table(mut inner) => {
                    let r = if i + 1 < n {
                        open_header(&mut inner, path, i + 1, array, line, col)
                    } else if array {
                        Err(ParseError::DuplicateKey(path[i].clone(), line, col))
                    } else {
                        Ok(())
                    };
                    let ghost same = i + 1 == n;
                    put_back(t, idx, k, Value::Table(inner), Ghost(orig));
                    proof {
                        if same {
                            assert(t@ =~= orig);
                        }
                    }
                    r
                },
                Value::TableArray(mut arr) => {
                    let ghost before = arr@;
                    let r = if i + 1 == n {
                        if array {
                            arr.push(Value::Table(Vec::new()));
                            proof {
                                assert(arr@.drop_last() =~= before);
                            }
                            Ok(())
                        } else {
                            Err(ParseError::DuplicateKey(path[i].clone(), line, col))
                        }
                    } else {
                        match arr.pop() {
                            Some(Value::Table(mut inner)) => {
                                let r = open_header(&mut inner, path, i + 1, array, line, col);
                                arr.push(Value::Table(inner));
                                proof {
                                    assert(arr@.drop_last() =~= before.drop_last());
                                }
                                r
                            },
                            Some(other) => {
                                arr.push(other);
                                Err(ParseError::DuplicateKey(path[i].clone(), line, col))
                            },
                            None => Err(ParseError::DuplicateKey(path[i].clone(), line, col)),
                        }
                    };
                    put_back(t, idx, k, Value::TableArray(arr), Ghost(orig));
                    r
                },
                other => {
                    put_back(t, idx, k, other, Ghost(orig));
                    Err(ParseError::DuplicateKey(path[i].clone(), line, col))
                },
            }
        },
    }
}

} // verus!
