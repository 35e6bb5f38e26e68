//! The LED names that a device profile declares as lighting targets.

use vstd::prelude::*;

use crate::text::chars_of;

verus! {

/// Whether `c` may stand in a target name: an ASCII letter or digit, or one of `:_.-`.
pub open spec fn is_name_char(c: char) -> bool {
    ||| 'a' <= c <= 'z'
    ||| 'A' <= c <= 'Z'
    ||| '0' <= c <= '9'
    ||| c == ':'
    ||| c == '_'
    ||| c == '.'
    ||| c == '-'
}

/// Whether `name` is a usable target name: non-empty, made of name characters, and
/// neither `.` nor `..`.
pub open spec fn is_valid_name(name: Seq<char>) -> bool {
    &&& name.len() > 0
    &&& forall|i: int| 0 <= i < name.len() ==> is_name_char(#[trigger] name[i])
    &&& name != seq!['.']
    &&& name != seq!['.', '.']
}

/// Whether `names[i]` repeats a name that comes before it.
pub open spec fn repeats_earlier(names: Seq<String>, i: int) -> bool {
    exists|j: int| 0 <= j < i && (#[trigger] names[j])@ == names[i]@
}

/// Whether `names[i]` is invalid or repeats an earlier name.
pub open spec fn is_faulty(names: Seq<String>, i: int) -> bool {
    !is_valid_name(names[i]@) || repeats_earlier(names, i)
}

/// Whether every name before index `end` is fine.
pub open spec fn fine_before(names: Seq<String>, end: int) -> bool {
    forall|j: int| 0 <= j < end ==> !is_faulty(names, j)
}

/// The first index whose name is faulty.
pub open spec fn first_fault(names: Seq<String>) -> int {
    choose|i: int| 0 <= i < names.len() && is_faulty(names, i) && fine_before(names, i)
}

/// The verdict on a list of target names: the list is not empty, and each name, in
/// order, is valid and new; the first name that is not is reported.
pub open spec fn names_verdict(names: Seq<String>) -> Result<(), NameError> {
    if names.len() == 0 {
        Err(NameError::Empty)
    } else if fine_before(names, names.len() as int) {
        Ok(())
    } else if !is_valid_name(names[first_fault(names)]@) {
        Err(NameError::Invalid(names[first_fault(names)]))
    } else {
        Err(NameError::Duplicate(names[first_fault(names)]))
    }
}

/// Why a list of target names is refused.
#[derive(Clone, Debug, PartialEq, Eq)]
pub enum NameError {
    /// The list is empty.
    Empty,
    /// This name is not a usable target name.
    Invalid(String),
    /// This name occurs twice.
    Duplicate(String),
}

/// Checks the target names: the list is not empty, and each name, in order, is valid
/// and new; the first name that is not is reported.
pub fn validate_names(targets: &Vec<String>) -> (checked: Result<(), NameError>)
    ensures
        checked == names_verdict(targets@),
        checked is Ok ==> forall|i: int, j: int|
            0 <= i < j < targets@.len() ==> (#[trigger] targets@[i])@ != (#[trigger] targets@[j])@,
        checked is Ok ==> forall|i: int|
            0 <= i < targets@.len() ==> is_valid_name((#[trigger] targets@[i])@),
{
    if targets.len() == 0 {
        return Err(NameError::Empty);
    }
    let mut i: usize = 0;
    while i < targets.len()
        invariant
            i <= targets@.len(),
            targets@.len() > 0,
            fine_before(targets@, i as int),
        decreases targets@.len() - i,
    {
        let name: &String = &targets[i];
        if !is_valid(name.as_str()) {
            assert(is_faulty(targets@, i as int));
            proof {
                lemma_first_fault(targets@, i as int);
            }
            return Err(NameError::Invalid(name.clone()));
        }
        let mut j: usize = 0;
        while j < i
            invariant
                j <= i < targets@.len(),
                name == targets@[i as int],
                is_valid_name(name@),
                fine_before(targets@, i as int),
                forall|k: int| 0 <= k < j ==> (#[trigger] targets@[k])@ != name@,
            decreases i - j,
        {
            if targets[j] == *name {
                proof {
                    assert(repeats_earlier(targets@, i as int)) by {
                        assert(targets@[j as int]@ == targets@[i as int]@);
                    }
                    assert(is_faulty(targets@, i as int));
                    lemma_first_fault(targets@, i as int);
                }
                return Err(NameError::Duplicate(name.clone()));
            }
            j = j + 1;
        }
        assert(!repeats_earlier(targets@, i as int));
        i = i + 1;
    }
    proof {
        assert forall|a: int, b: int|
            0 <= a < b < targets@.len() implies (#[trigger] targets@[a])@ != (#[trigger] targets@[
            b])@ by {
            assert(!is_faulty(targets@, b));
        }
        assert forall|a: int| 0 <= a < targets@.len() implies is_valid_name(
            (#[trigger] targets@[a])@,
        ) by {
            assert(!is_faulty(targets@, a));
        }
    }
    Ok(())
}

/// Whether every name is valid and no two are the same.
pub open spec fn valid_and_distinct(names: Seq<String>) -> bool {
    &&& forall|i: int| 0 <= i < names.len() ==> is_valid_name((#[trigger] names[i])@)
    &&& forall|i: int, j: int|
        0 <= i < j < names.len() ==> (#[trigger] names[i])@ != (#[trigger] names[j])@
}

/// Whether `reordered` holds the names of `names` in another order: its entry `k` is
/// the entry `order[k]` of `names`, and `order` matches the positions one to one.
pub open spec fn is_reordering(reordered: Seq<String>, names: Seq<String>, order: Seq<int>) -> bool {
    &&& reordered.len() == names.len()
    &&& order.len() == names.len()
    &&& forall|k: int|
        0 <= k < order.len() ==> 0 <= #[trigger] order[k] < names.len() && reordered[k]@
            == names[order[k]]@
    &&& forall|k1: int, k2: int|
        0 <= k1 < order.len() && 0 <= k2 < order.len() && k1 != k2 ==> #[trigger] order[k1]
            != #[trigger] order[k2]
    &&& forall|j: int| 0 <= j < names.len() ==> #[trigger] is_taken(order, j)
}

/// Whether some entry of `order` is `j`.
pub open spec fn is_taken(order: Seq<int>, j: int) -> bool {
    exists|k: int| 0 <= k < order.len() && #[trigger] order[k] == j
}

/// The names are accepted exactly when there is at least one, each is valid, and no
/// two are the same.
pub proof fn law_accepted_names(names: Seq<String>)
    ensures
        names_verdict(names) is Ok <==> names.len() > 0 && valid_and_distinct(names),
{
    if names.len() > 0 && valid_and_distinct(names) {
        assert forall|j: int| 0 <= j < names.len() implies !is_faulty(names, j) by {
            if repeats_earlier(names, j) {
                let i = choose|i: int| 0 <= i < j && (#[trigger] names[i])@ == names[j]@;
                assert(names[i]@ != names[j]@);
            }
        }
    }
    if names_verdict(names) is Ok {
        assert(fine_before(names, names.len() as int));
        assert forall|i: int, j: int|
            0 <= i < j < names.len() implies (#[trigger] names[i])@ != (#[trigger] names[j])@ by {
            assert(!is_faulty(names, j));
        }
        assert forall|i: int| 0 <= i < names.len() implies is_valid_name(
            (#[trigger] names[i])@,
        ) by {
            assert(!is_faulty(names, i));
        }
    }
}

/// The names are accepted exactly when there is at least one, and each name is
/// non-empty, made only of ASCII letters, ASCII digits, `:`, `_`, `.` and `-`, neither
/// `.` nor `..`, and different from every other; a name holding any other character,
/// such as a space or a `/`, is refused.
pub proof fn law_accepted_names_are_spelled_out(names: Seq<String>)
    ensures
        names_verdict(names) is Ok <==> names.len() > 0 && (forall|i: int|
            0 <= i < names.len() ==> (#[trigger] names[i])@.len() > 0) && (forall|i: int, k: int|
            0 <= i < names.len() && 0 <= k < names[i]@.len() ==> {
                let c = #[trigger] names[i]@[k];
                ('a' <= c && c <= 'z') || ('A' <= c && c <= 'Z') || ('0' <= c && c <= '9') || c
                    == ':' || c == '_' || c == '.' || c == '-'
            }) && (forall|i: int|
            0 <= i < names.len() ==> !((#[trigger] names[i])@.len() == 1 && names[i]@[0]
                == '.') && !(names[i]@.len() == 2 && names[i]@[0] == '.' && names[i]@[1]
                == '.')) && (forall|
            i: int,
            j: int,
        | 0 <= i < j < names.len() ==> (#[trigger] names[i])@ != (#[trigger] names[j])@),
{
    law_accepted_names(names);
    assert forall|i: int| 0 <= i < names.len() implies is_valid_name((#[trigger] names[i])@)
        == (names[i]@.len() > 0 && (forall|k: int|
        0 <= k < names[i]@.len() ==> is_name_char(#[trigger] names[i]@[k])) && !(
    names[i]@.len() == 1 && names[i]@[0] == '.') && !(names[i]@.len() == 2 && names[i]@[0]
        == '.' && names[i]@[1] == '.')) by {
        lemma_dots(names[i]@);
    }
}

proof fn lemma_dots(name: Seq<char>)
    ensures
        (name == seq!['.']) == (name.len() == 1 && name[0] == '.'),
        (name == seq!['.', '.']) == (name.len() == 2 && name[0] == '.' && name[1] == '.'),
{
    if name.len() == 1 && name[0] == '.' {
        assert(name =~= seq!['.']);
    }
    if name.len() == 2 && name[0] == '.' && name[1] == '.' {
        assert(name =~= seq!['.', '.']);
    }
    if name == seq!['.'] {
        assert(name.len() == 1 && name[0] == '.');
    }
    if name == seq!['.', '.'] {
        assert(name.len() == 2 && name[0] == '.' && name[1] == '.');
    }
}


/// A refused list names its first bad entry: the list up to that entry is accepted
/// (or empty), the list through it is refused, and the entry is reported as invalid
/// exactly when it is refused even on its own (else it repeats an earlier name).
pub proof fn law_refusal_names_the_first_bad_entry(names: Seq<String>)
    requires
        names.len() > 0,
        names_verdict(names) is Err,
    ensures
        exists|i: int|
            0 <= i < names.len() && (i == 0 || names_verdict(names.take(i)) is Ok)
                && names_verdict(#[trigger] names.take(i + 1)) is Err && match names_verdict(names) {
                Err(NameError::Invalid(x)) => x == names[i] && names_verdict(seq![x]) is Err,
                Err(NameError::Duplicate(x)) => x == names[i] && names_verdict(seq![x]) is Ok,
                _ => false,
            },
{
    lemma_some_fault_is_first(names, names.len() as int);
    let i = first_fault(names);
    assert(0 <= i < names.len() && is_faulty(names, i) && fine_before(names, i));
    let before = names.take(i);
    let through = names.take(i + 1);
    assert forall|j: int| 0 <= j <= i implies (is_faulty(through, j) == is_faulty(names, j)) by {
        assert(through[j] == names[j]);
        if repeats_earlier(names, j) {
            let k = choose|k: int| 0 <= k < j && (#[trigger] names[k])@ == names[j]@;
            assert(through[k] == names[k]);
        }
        if repeats_earlier(through, j) {
            let k = choose|k: int| 0 <= k < j && (#[trigger] through[k])@ == through[j]@;
            assert(through[k] == names[k]);
        }
    }
    assert forall|j: int| 0 <= j < i implies !is_faulty(before, j) by {
        assert(before[j] == names[j]);
        assert(!is_faulty(names, j));
        if repeats_earlier(before, j) {
            let k = choose|k: int| 0 <= k < j && (#[trigger] before[k])@ == before[j]@;
            assert(before[k] == names[k]);
        }
    }
    assert(fine_before(before, before.len() as int));
    assert(!fine_before(through, through.len() as int)) by {
        assert(is_faulty(through, i));
    }
    let x = names[i];
    let single = seq![x];
    law_accepted_names(single);
    assert(single[0] == x);
    assert(0 <= i < names.len() && (i == 0 || names_verdict(names.take(i)) is Ok)
        && names_verdict(names.take(i + 1)) is Err);
}

/// Where some name before `end` is faulty, a first faulty name exists.
proof fn lemma_some_fault_is_first(names: Seq<String>, end: int)
    requires
        0 <= end <= names.len(),
        !fine_before(names, end),
    ensures
        exists|i: int| 0 <= i < names.len() && is_faulty(names, i) && fine_before(names, i),
    decreases end,
{
    if fine_before(names, end - 1) {
        assert(is_faulty(names, end - 1));
    } else {
        lemma_some_fault_is_first(names, end - 1);
    }
}

/// The order of the names does not change whether they are accepted.
pub proof fn law_name_check_ignores_order(reordered: Seq<String>, names: Seq<String>, order: Seq<int>)
    requires
        is_reordering(reordered, names, order),
    ensures
        (names_verdict(reordered) is Ok) == (names_verdict(names) is Ok),
{
    law_accepted_names(reordered);
    law_accepted_names(names);
    let n = names.len();
    if valid_and_distinct(names) {
        assert forall|k: int| 0 <= k < n implies is_valid_name((#[trigger] reordered[k])@) by {
            assert(0 <= order[k] < n);
        }
        assert forall|k1: int, k2: int|
            0 <= k1 < k2 < n implies (#[trigger] reordered[k1])@ != (#[trigger] reordered[k2])@ by {
            assert(order[k1] != order[k2]);
            if order[k1] < order[k2] {
                assert(names[order[k1]]@ != names[order[k2]]@);
            } else {
                assert(names[order[k2]]@ != names[order[k1]]@);
            }
        }
    }
    if valid_and_distinct(reordered) {
        assert forall|j: int| 0 <= j < n implies is_valid_name((#[trigger] names[j])@) by {
            assert(is_taken(order, j));
            let k = choose|k: int| 0 <= k < order.len() && #[trigger] order[k] == j;
            assert(is_valid_name(reordered[k]@));
        }
        assert forall|i: int, j: int|
            0 <= i < j < n implies (#[trigger] names[i])@ != (#[trigger] names[j])@ by {
            assert(is_taken(order, i));
            assert(is_taken(order, j));
            let k1 = choose|k: int| 0 <= k < order.len() && #[trigger] order[k] == i;
            let k2 = choose|k: int| 0 <= k < order.len() && #[trigger] order[k] == j;
            if k1 < k2 {
                assert(reordered[k1]@ != reordered[k2]@);
            } else {
                assert(reordered[k2]@ != reordered[k1]@);
            }
        }
    }
}

/// The first faulty name is the one that every earlier name is fine before.
proof fn lemma_first_fault(names: Seq<String>, i: int)
    requires
        0 <= i < names.len(),
        is_faulty(names, i),
        fine_before(names, i),
    ensures
        first_fault(names) == i,
        !fine_before(names, names.len() as int),
{
    let k = first_fault(names);
    assert(0 <= k < names.len() && is_faulty(names, k) && fine_before(names, k));
    if k < i {
        assert(!is_faulty(names, k));
    }
    if k > i {
        assert(!is_faulty(names, i));
    }
}

/// Whether `name` is a usable target name.
fn is_valid(name: &str) -> (valid: bool)
    ensures
        valid == is_valid_name(name@),
{
    let chars: Vec<char> = chars_of(name);
    if chars.len() == 0 {
        return false;
    }
    let mut i: usize = 0;
    while i < chars.len()
        invariant
            i <= chars@.len(),
            chars@ == name@,
            forall|k: int| 0 <= k < i ==> is_name_char(#[trigger] chars@[k]),
        decreases chars@.len() - i,
    {
        let c: char = chars[i];
        let allowed: bool = ('a' <= c && c <= 'z') || ('A' <= c && c <= 'Z') || ('0' <= c && c
            <= '9') || c == ':' || c == '_' || c == '.' || c == '-';
        if !allowed {
            assert(!is_name_char(chars@[i as int]));
            return false;
        }
        i = i + 1;
    }
    if chars.len() == 1 && chars[0] == '.' {
        assert(chars@ =~= seq!['.']);
        return false;
    }
    if chars.len() == 2 && chars[0] == '.' && chars[1] == '.' {
        assert(chars@ =~= seq!['.', '.']);
        return false;
    }
    proof {
        if chars@.len() == 1 {
            assert(chars@ != seq!['.']) by {
                assert(seq!['.'][0] == '.');
            }
        }
        if chars@.len() == 2 {
            assert(chars@ != seq!['.', '.']) by {
                assert(seq!['.', '.'][0] == '.');
                assert(seq!['.', '.'][1] == '.');
            }
        }
    }
    true
}

} // verus!
