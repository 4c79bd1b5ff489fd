//! The log files.

use vstd::prelude::*;
use vstd::string::*;

use crate::config::APP_NAME;
use crate::text::joined;

verus! {

/// How many log files are kept.
#[derive(Clone, Copy, Debug, PartialEq, Eq, Structural)]
pub enum Rotation {
    /// All of them.
    Never,
    /// The given number, with the one that is about to be written.
    Keep(usize),
}

/// The name of a log file, with places for the time.
pub fn log_file_format() -> (res: String)
    ensures
        res@ == APP_NAME@ + ".log.%Y-%m-%d_%H:%M:%S"@,
{
    joined(APP_NAME, ".log.%Y-%m-%d_%H:%M:%S")
}

/// What the names of log files begin with, as bytes: the name of the program and `.log.`.
pub open spec fn log_prefix() -> Seq<u8> {
    seq![115u8, 112u8, 97u8, 114u8, 115u8, 101u8, 46u8, 108u8, 111u8, 103u8, 46u8]
}

/// Whether a file is a log file, by its name.
pub open spec fn is_log(name: Seq<u8>) -> bool {
    name.len() >= log_prefix().len() && name.take(log_prefix().len() as int) == log_prefix()
}

/// The names of log files among some names, in order.
pub open spec fn logs(names: Seq<Vec<u8>>) -> Seq<Seq<u8>>
    decreases names.len(),
{
    if names.len() == 0 {
        Seq::empty()
    } else if is_log(names.last()@) {
        logs(names.drop_last()).push(names.last()@)
    } else {
        logs(names.drop_last())
    }
}

/// Lexicographic order of bytes.
pub open spec fn bytes_before(a: Seq<u8>, b: Seq<u8>) -> bool
    decreases a.len(),
{
    if b.len() == 0 {
        false
    } else if a.len() == 0 {
        true
    } else if a[0] != b[0] {
        a[0] < b[0]
    } else {
        bytes_before(a.skip(1), b.skip(1))
    }
}

/// How many of the names from the front on do not come behind a name.
pub open spec fn place_in(sorted: Seq<Seq<u8>>, name: Seq<u8>) -> int
    decreases sorted.len(),
{
    if sorted.len() == 0 {
        0
    } else if bytes_before(name, sorted.last()) {
        place_in(sorted.drop_last(), name)
    } else {
        sorted.len() as int
    }
}

/// The names in lexicographic order.
pub open spec fn in_order(names: Seq<Seq<u8>>) -> Seq<Seq<u8>>
    decreases names.len(),
{
    if names.len() == 0 {
        Seq::empty()
    } else {
        let front = in_order(names.drop_last());
        front.insert(place_in(front, names.last()), names.last())
    }
}

/// How many of `len` log files are removed to keep `num` with the one that is about to be written.
pub open spec fn surplus(len: int, num: int) -> int {
    if num == 0 {
        len
    } else if num <= len {
        len - num + 1
    } else {
        0
    }
}

/// The names as bytes.
pub open spec fn name_bytes(names: Seq<Vec<u8>>) -> Seq<Seq<u8>> {
    Seq::new(names.len(), |i: int| names[i]@)
}

proof fn lemma_place_in(sorted: Seq<Seq<u8>>, name: Seq<u8>)
    ensures
        0 <= place_in(sorted, name) <= sorted.len(),
        forall|i: int|
            place_in(sorted, name) <= i < sorted.len() ==> bytes_before(name, #[trigger] sorted[i]),
        place_in(sorted, name) > 0 ==> !bytes_before(name, sorted[place_in(sorted, name) - 1]),
    decreases sorted.len(),
{
    if sorted.len() > 0 && bytes_before(name, sorted.last()) {
        let front = sorted.drop_last();
        lemma_place_in(front, name);
        assert forall|i: int| place_in(sorted, name) <= i < sorted.len() implies bytes_before(
            name,
            #[trigger] sorted[i],
        ) by {
            if i < front.len() {
                assert(front[i] == sorted[i]);
            }
        }
    }
}

/// Whether one name comes before another.
fn comes_first(a: &Vec<u8>, b: &Vec<u8>) -> (res: bool)
    ensures
        res == bytes_before(a@, b@),
{
    let mut i: usize = 0;
    proof {
        assert(a@.skip(0) =~= a@);
        assert(b@.skip(0) =~= b@);
    }
    while i < a.len() && i < b.len()
        invariant
            i <= a@.len(),
            i <= b@.len(),
            bytes_before(a@, b@) == bytes_before(a@.skip(i as int), b@.skip(i as int)),
        decreases a@.len() - i,
    {
        if a[i] != b[i] {
            return a[i] < b[i];
        }
        proof {
            assert(a@.skip(i as int).skip(1) =~= a@.skip(i + 1));
            assert(b@.skip(i as int).skip(1) =~= b@.skip(i + 1));
        }
        i = i + 1;
    }
    i < b.len()
}

/// What the names of log files begin with.
fn prefix_bytes() -> (res: Vec<u8>)
    ensures
        res@ == log_prefix(),
{
    let v = vec![115u8, 112u8, 97u8, 114u8, 115u8, 101u8, 46u8, 108u8, 111u8, 103u8, 46u8];
    proof {
        assert(v@ =~= log_prefix());
    }
    v
}

/// Whether a file is a log file, by its name.
fn has_log_name(name: &Vec<u8>) -> (res: bool)
    ensures
        res == is_log(name@),
{
    let prefix = prefix_bytes();
    if name.len() < prefix.len() {
        return false;
    }
    let mut i: usize = 0;
    while i < prefix.len()
        invariant
            prefix@ == log_prefix(),
            i <= prefix@.len() <= name@.len(),
            forall|j: int| 0 <= j < i ==> name@[j] == prefix@[j],
        decreases prefix@.len() - i,
    {
        if name[i] != prefix[i] {
            proof {
                assert(name@.take(log_prefix().len() as int)[i as int] == name@[i as int]);
            }
            return false;
        }
        i = i + 1;
    }
    proof {
        assert(name@.take(log_prefix().len() as int) =~= log_prefix());
    }
    true
}

/// The log files to remove before a new one is written: the oldest ones, as the names are in the
/// order of time.
fn clean_up(names: Vec<Vec<u8>>, num: usize) -> (res: Vec<Vec<u8>>)
    ensures
        ({
            let files = in_order(logs(names@));
            name_bytes(res@) == files.take(surplus(files.len() as int, num as int))
        }),
{
    let mut files: Vec<Vec<u8>> = Vec::new();
    let ghost all = names@;
    proof {
        assert(name_bytes(files@) =~= Seq::<Seq<u8>>::empty());
    }
    for name in it: names
        invariant
            it.seq() == all,
            name_bytes(files@) == in_order(logs(all.take(it.index() as int))),
    {
        proof {
            let i = it.index() as int;
            assert(all.take(i + 1).drop_last() =~= all.take(i));
            assert(all.take(i + 1).last() == all[i]);
        }
        if has_log_name(&name) {
            let ghost before = name_bytes(files@);
            let ghost part = logs(all.take(it.index() as int));
            let ghost bytes = name@;
            proof {
                assert(part.push(bytes).drop_last() =~= part);
                lemma_place_in(before, bytes);
            }
            let mut at: usize = files.len();
            while at > 0 && comes_first(&name, &files[at - 1])
                invariant
                    at <= files@.len(),
                    name@ == bytes,
                    before == name_bytes(files@),
                    forall|j: int| at <= j < before.len() ==> bytes_before(bytes, #[trigger] before[j]),
                decreases at,
            {
                proof {
                    assert(before[at - 1] == files@[at - 1]@);
                }
                at = at - 1;
            }
            proof {
                let p = place_in(before, bytes);
                if at < p {
                    assert(bytes_before(bytes, before[p - 1]));
                }
                if p < at {
                    assert(bytes_before(bytes, before[at - 1]));
                    assert(before[at - 1] == files@[at - 1]@);
                }
            }
            files.insert(at, name);
            proof {
                assert(name_bytes(files@) =~= before.insert(at as int, bytes));
            }
        }
    }
    proof {
        assert(all.take(all.len() as int) =~= all);
        assert(name_bytes(files@).len() == files@.len());
    }
    let len: usize = files.len();
    let remove: usize = if num == 0 {
        len
    } else if num <= len {
        len - num + 1
    } else {
        0
    };
    let ghost whole = name_bytes(files@);
    files.truncate(remove);
    proof {
        assert(name_bytes(files@) =~= whole.take(remove as int));
    }
    files
}

/// Whether some files are those to remove at the start, given the names of the files in their
/// directory.
pub open spec fn is_removed_at_start(
    rotation: Rotation,
    names: Seq<Vec<u8>>,
    removed: Seq<Vec<u8>>,
) -> bool {
    match rotation {
        Rotation::Never => removed.len() == 0,
        Rotation::Keep(num) => {
            let files = in_order(logs(names));
            name_bytes(removed) == files.take(surplus(files.len() as int, num as int))
        },
    }
}

/// The log files to remove at the start, given the names of the files in their directory.
pub fn init(rotation: Rotation, names: Vec<Vec<u8>>) -> (res: Vec<Vec<u8>>)
    ensures
        is_removed_at_start(rotation, names@, res@),
{
    match rotation {
        Rotation::Never => Vec::new(),
        Rotation::Keep(num) => clean_up(names, num),
    }
}

/// Whether the log files could all be removed. One that could not is an error.
pub fn removal_result(removed: &Vec<bool>) -> (res: Result<(), String>)
    ensures
        if forall|i: int| 0 <= i < removed@.len() ==> removed@[i] {
            res is Ok
        } else {
            res matches Err(e) && e@ == "Error deleting old log files"@
        },
{
    let mut i: usize = 0;
    while i < removed.len()
        invariant
            i <= removed@.len(),
            forall|j: int| 0 <= j < i ==> removed@[j],
        decreases removed@.len() - i,
    {
        if !removed[i] {
            return Err("Error deleting old log files".to_owned());
        }
        i = i + 1;
    }
    Ok(())
}

proof fn lemma_bytes_before_transitive(a: Seq<u8>, b: Seq<u8>, c: Seq<u8>)
    requires
        !bytes_before(b, a),
        !bytes_before(c, b),
    ensures
        !bytes_before(c, a),
    decreases a.len(),
{
    if a.len() > 0 && b.len() > 0 && c.len() > 0 && a[0] == b[0] && b[0] == c[0] {
        lemma_bytes_before_transitive(a.skip(1), b.skip(1), c.skip(1));
    }
}

proof fn lemma_bytes_before_asymmetric(a: Seq<u8>, b: Seq<u8>)
    requires
        bytes_before(a, b),
    ensures
        !bytes_before(b, a),
    decreases a.len(),
{
    if a.len() > 0 && b.len() > 0 && a[0] == b[0] {
        lemma_bytes_before_asymmetric(a.skip(1), b.skip(1));
    }
}

/// No name comes before one that stands in front of it, and all names are still there.
pub proof fn law_in_order_is_sorted(names: Seq<Seq<u8>>)
    ensures
        forall|i: int, j: int|
            0 <= i < j < in_order(names).len() ==> !bytes_before(
                #[trigger] in_order(names)[j],
                #[trigger] in_order(names)[i],
            ),
        in_order(names).to_multiset() == names.to_multiset(),
        in_order(names).len() == names.len(),
    decreases names.len(),
{
    broadcast use vstd::seq_lib::group_to_multiset_ensures;

    if names.len() == 0 {
        assert(in_order(names) =~= names);
    } else {
        let front = names.drop_last();
        let last = names.last();
        law_in_order_is_sorted(front);
        let sorted = in_order(front);
        let p = place_in(sorted, last);
        let whole = sorted.insert(p, last);
        lemma_place_in(sorted, last);
        assert(in_order(names) == whole);
        assert(names =~= front.push(last));
        assert(whole.to_multiset() =~= sorted.to_multiset().insert(last)) by {
            vstd::seq_lib::to_multiset_insert(sorted, p, last);
        }
        assert forall|i: int, j: int| 0 <= i < j < whole.len() implies !bytes_before(
            #[trigger] whole[j],
            #[trigger] whole[i],
        ) by {
            if j < p {
                assert(whole[i] == sorted[i]);
                assert(whole[j] == sorted[j]);
            } else if j == p {
                assert(whole[i] == sorted[i]);
                assert(!bytes_before(last, sorted[p - 1]));
                if i < p - 1 {
                    assert(!bytes_before(sorted[p - 1], sorted[i]));
                    lemma_bytes_before_transitive(sorted[i], sorted[p - 1], last);
                }
            } else if i < p {
                assert(whole[i] == sorted[i]);
                assert(whole[j] == sorted[j - 1]);
            } else if i == p {
                assert(whole[j] == sorted[j - 1]);
                assert(bytes_before(last, sorted[j - 1]));
                lemma_bytes_before_asymmetric(last, sorted[j - 1]);
            } else {
                assert(whole[i] == sorted[i - 1]);
                assert(whole[j] == sorted[j - 1]);
            }
        }
    }
}

/// With the new log file, no more files are left than were to be kept, unless none was.
pub proof fn law_rotation_keeps_the_number(len: int, num: int)
    requires
        0 <= len,
        0 <= num,
    ensures
        0 <= surplus(len, num) <= len,
        num > 0 ==> len - surplus(len, num) + 1 <= num || surplus(len, num) == 0,
        num > len ==> surplus(len, num) == 0,
        0 < num <= len ==> len - surplus(len, num) + 1 == num,
{
}

/// The bytes of a text in which every character takes one.
pub open spec fn plain_bytes(s: Seq<char>) -> Seq<u8> {
    Seq::new(s.len(), |i: int| s[i] as u8)
}

/// The log files are those whose names begin with `sparse.log.`, which is how the names of new ones
/// begin. They keep the order of the names.
pub proof fn law_logs_are_found_by_name(names: Seq<Vec<u8>>, name: Vec<u8>)
    ensures
        is_log(name@) <==> exists|rest: Seq<u8>| name@ == #[trigger] (plain_bytes("sparse.log."@)
            + rest),
        APP_NAME@ + ".log."@ == "sparse.log."@,
        logs(names.push(name)) == (if is_log(name@) {
            logs(names).push(name@)
        } else {
            logs(names)
        }),
        logs(Seq::empty()) == Seq::<Seq<u8>>::empty(),
{
    reveal_strlit("sparse.log.");
    reveal_strlit("sparse");
    reveal_strlit(".log.");
    assert(APP_NAME@ + ".log."@ =~= "sparse.log."@);
    let start = plain_bytes("sparse.log."@);
    assert(start =~= log_prefix());
    if is_log(name@) {
        assert(name@ =~= start + name@.skip(start.len() as int));
    }
    if exists|rest: Seq<u8>| name@ == #[trigger] (start + rest) {
        let rest = choose|rest: Seq<u8>| name@ == #[trigger] (start + rest);
        assert(name@.take(start.len() as int) =~= start);
    }
    assert(names.push(name).drop_last() =~= names);
}

/// Names are in order by the first byte in which they differ. One that goes on where another one
/// ends comes behind it.
pub proof fn law_bytes_are_in_order(common: Seq<u8>, x: u8, a: Seq<u8>, y: u8, b: Seq<u8>)
    requires
        x != y,
    ensures
        bytes_before(common + seq![x] + a, common + seq![y] + b) <==> x < y,
        bytes_before(common, common + seq![y] + b),
        !bytes_before(common + a, common),
    decreases common.len(),
{
    let p = common + seq![x] + a;
    let q = common + seq![y] + b;
    if common.len() == 0 {
        assert(p[0] == x);
        assert(q[0] == y);
    } else {
        let rest = common.skip(1);
        law_bytes_are_in_order(rest, x, a, y, b);
        assert(p[0] == common[0] && q[0] == common[0]);
        assert(p.skip(1) =~= rest + seq![x] + a);
        assert(q.skip(1) =~= rest + seq![y] + b);
        assert((common + a)[0] == common[0]);
        assert((common + a).skip(1) =~= rest + a);
    }
}

/// Whether names are those that are removed and those that are kept, and none that is kept comes
/// before one that is removed.
pub open spec fn are_parted(all: Seq<Seq<u8>>, removed: Seq<Seq<u8>>, kept: Seq<Seq<u8>>) -> bool {
    &&& all.to_multiset() == removed.to_multiset().add(kept.to_multiset())
    &&& forall|i: int, j: int|
        0 <= i < removed.len() && 0 <= j < kept.len() ==> !bytes_before(
            #[trigger] kept[j],
            #[trigger] removed[i],
        )
}

/// The log files that are removed come first in the order of their names, and with the one that is
/// about to be written the number that is to be kept is left. Nothing is removed while there are
/// fewer, and nothing is ever removed where all are to be kept.
pub proof fn law_oldest_logs_are_removed(num: usize, names: Seq<Vec<u8>>, removed: Seq<Vec<u8>>)
    requires
        is_removed_at_start(Rotation::Keep(num), names, removed),
    ensures
        exists|kept: Seq<Seq<u8>>| #[trigger] are_parted(logs(names), name_bytes(removed), kept) && (
        0 < num <= logs(names).len() ==> kept.len() + 1 == num) && (num > logs(names).len()
            ==> removed.len() == 0) && (num == 0 ==> kept.len() == 0),
        is_removed_at_start(Rotation::Never, names, removed) ==> removed.len() == 0,
{
    broadcast use vstd::seq_lib::group_to_multiset_ensures;

    let all = logs(names);
    let files = in_order(all);
    law_in_order_is_sorted(all);
    let n = surplus(files.len() as int, num as int);
    law_rotation_keeps_the_number(files.len() as int, num as int);
    let gone = files.take(n);
    let kept = files.skip(n);
    assert(name_bytes(removed) == gone);
    assert(removed.len() == gone.len());
    assert(gone + kept =~= files);
    vstd::seq_lib::lemma_multiset_commutative(gone, kept);
    assert forall|i: int, j: int| 0 <= i < gone.len() && 0 <= j < kept.len() implies !bytes_before(
        #[trigger] kept[j],
        #[trigger] gone[i],
    ) by {
        assert(gone[i] == files[i]);
        assert(kept[j] == files[n + j]);
    }
    assert(are_parted(all, name_bytes(removed), kept));
}

} // verus!
