//! Choosing the input file where none was named: the most recently modified
//! regular file of the directory whose name ends in `.bit`.

use crate::text::chars_of;
use vstd::prelude::*;

verus! {

/// One entry of a directory listing.
#[derive(Debug, Clone)]
pub struct Entry {
    /// File name, without the directory.
    pub name: String,
    /// Whether the entry is a regular file.
    pub is_file: bool,
    /// Time of the last modification, in nanoseconds since the Unix epoch.
    pub modified: u128,
}

/// The extension of a bitstream file.
pub open spec fn bit_suffix() -> Seq<char> {
    seq!['.', 'b', 'i', 't']
}

/// Whether a file name ends in `.bit`.
pub open spec fn spec_is_bit_file(name: Seq<char>) -> bool {
    name.len() >= 4 && name.skip(name.len() - 4) == bit_suffix()
}

/// Whether an entry can be chosen at all.
pub open spec fn eligible(e: Entry) -> bool {
    e.is_file && spec_is_bit_file(e.name@)
}

/// Whether entry `i` is the one to choose: it is eligible, no eligible entry
/// is newer, and of the eligible entries of the same age it stands last.
pub open spec fn is_newest(entries: Seq<Entry>, i: int) -> bool {
    &&& 0 <= i < entries.len()
    &&& eligible(entries[i])
    &&& forall|j: int|
        0 <= j < entries.len() && #[trigger] eligible(entries[j]) ==> entries[j].modified
            <= entries[i].modified
    &&& forall|j: int|
        i < j < entries.len() && #[trigger] eligible(entries[j]) ==> entries[j].modified
            < entries[i].modified
}

/// Tells whether a file name ends in `.bit`.
pub fn is_bit_file(name: &str) -> (r: bool)
    ensures
        r == spec_is_bit_file(name@),
{
    let chars = chars_of(name);
    let n: usize = chars.len();
    if n < 4 {
        return false;
    }
    let r = chars[n - 4] == '.' && chars[n - 3] == 'b' && chars[n - 2] == 'i' && chars[n - 1]
        == 't';
    proof {
        let tail = name@.skip(n - 4);
        assert(tail.len() == 4);
        assert(tail[0] == name@[n - 4]);
        assert(tail[1] == name@[n - 3]);
        assert(tail[2] == name@[n - 2]);
        assert(tail[3] == name@[n - 1]);
        if r {
            assert(tail =~= bit_suffix());
        }
    }
    r
}

/// Picks the most recently modified bitstream file of a directory listing,
/// by its index; `None` where the listing holds no bitstream file.
pub fn newest_bit_file(entries: &Vec<Entry>) -> (r: Option<usize>)
    ensures
        match r {
            Some(i) => is_newest(entries@, i as int),
            None => forall|j: int| 0 <= j < entries.len() ==> !#[trigger] eligible(entries[j]),
        },
{
    let mut best: Option<usize> = None;
    let mut i: usize = 0;
    while i < entries.len()
        invariant
            i <= entries.len(),
            match best {
                Some(b) => b < i && is_newest(entries@.take(i as int), b as int),
                None => forall|j: int| 0 <= j < i ==> !#[trigger] eligible(entries[j]),
            },
        decreases entries.len() - i,
    {
        let ghost before = entries@.take(i as int);
        let ghost after = entries@.take(i + 1);
        proof {
            assert(forall|j: int| 0 <= j < i ==> after[j] == before[j]);
            assert(after[i as int] == entries[i as int]);
        }
        if entries[i].is_file && is_bit_file(entries[i].name.as_str()) {
            let newer = match best {
                Some(b) => entries[i].modified >= entries[b].modified,
                None => true,
            };
            if newer {
                best = Some(i);
            }
        }
        proof {
            match best {
                Some(b) => {
                    assert(is_newest(after, b as int));
                },
                None => {},
            }
        }
        i += 1;
    }
    proof {
        assert(entries@.take(i as int) =~= entries@);
    }
    best
}

} // verus!
