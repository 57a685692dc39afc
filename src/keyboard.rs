use vstd::prelude::*;

verus! {

/// A key of a three-row, ten-column keyboard: its row and its column.
#[derive(Clone, Copy, Debug, PartialEq, Eq, Hash)]
pub struct Key(pub usize, pub usize);

/// The distance a finger travels between two keys it strikes in a row: the
/// row difference on one column; one more on the two index-finger columns
/// 3–4 or 5–6; zero for keys of different fingers.
pub open spec fn same_finger_distance(a: Key, b: Key) -> int {
    let dr = if a.0 >= b.0 { a.0 - b.0 } else { b.0 - a.0 };
    if a.1 == b.1 {
        dr
    } else if (3 <= a.1 < 5 && 3 <= b.1 < 5) || (5 <= a.1 < 7 && 5 <= b.1 < 7) {
        1 + dr
    } else {
        0
    }
}

/// The same-finger distance of a pair of keys.
pub fn sfb_distance(keys: Vec<Key>) -> (r: u64)
    requires
        keys.len() == 2,
        keys[0].0 < u64::MAX,
        keys[1].0 < u64::MAX,
    ensures
        r == same_finger_distance(keys[0], keys[1]),
{
    let a = keys[0];
    let b = keys[1];
    let dr = if a.0 >= b.0 { a.0 - b.0 } else { b.0 - a.0 };
    if a.1 == b.1 {
        return dr as u64;
    }
    if (3 <= a.1 && a.1 < 5 && 3 <= b.1 && b.1 < 5) || (5 <= a.1 && a.1 < 7 && 5 <= b.1 && b.1 < 7) {
        return 1 + dr as u64;
    }
    0
}

/// The character that the last pair for `(row, col)` in `pairs` gives, or `'\0'`.
pub open spec fn cell_of(pairs: Seq<(Key, char)>, row: usize, col: usize) -> char
    decreases pairs.len(),
{
    if pairs.len() == 0 {
        '\0'
    } else if pairs.last().0 == Key(row, col) {
        pairs.last().1
    } else {
        cell_of(pairs.drop_last(), row, col)
    }
}

/// The characters of a three-row, ten-column keyboard, row by row.
#[derive(Clone, Debug)]
pub struct Layout(Vec<Vec<char>>);

impl Layout {
    pub closed spec fn grid(&self) -> Seq<Seq<char>> {
        self.0@.map_values(|row: Vec<char>| row@)
    }

    /// The keyboard with each character of `pairs` on its key; keys that no
    /// pair names hold `'\0'`.
    pub fn from_pairs(pairs: &Vec<(Key, char)>) -> (r: Layout)
        ensures
            r.grid().len() == 3,
            forall|row: int| 0 <= row < 3 ==> (#[trigger] r.grid()[row]).len() == 10,
            forall|row: int, col: int| 0 <= row < 3 && 0 <= col < 10 ==> #[trigger] r.grid()[row][col] == cell_of(
                pairs@,
                row as usize,
                col as usize,
            ),
    {
        let mut rows: Vec<Vec<char>> = Vec::new();
        let mut row: usize = 0;
        while row < 3
            invariant
                row <= 3,
                rows.len() == row,
                forall|x: int| 0 <= x < row ==> (#[trigger] rows@[x])@.len() == 10,
                forall|x: int, col: int| 0 <= x < row && 0 <= col < 10 ==> #[trigger] rows@[x]@[col] == cell_of(
                    pairs@,
                    x as usize,
                    col as usize,
                ),
            decreases 3 - row,
        {
            let mut line: Vec<char> = Vec::new();
            let mut col: usize = 0;
            while col < 10
                invariant
                    row < 3,
                    col <= 10,
                    line.len() == col,
                    forall|c: int| 0 <= c < col ==> #[trigger] line@[c] == cell_of(pairs@, row, c as usize),
                decreases 10 - col,
            {
                line.push(lookup_key(pairs, Key(row, col)));
                col += 1;
            }
            rows.push(line);
            row += 1;
        }
        let r = Layout(rows);
        proof {
            assert forall|x: int| 0 <= x < 3 implies (#[trigger] r.grid()[x]).len() == 10 by {}
        }
        r
    }

    /// The characters, row by row.
    pub fn rows(&self) -> (r: &Vec<Vec<char>>)
        ensures
            r@.map_values(|row: Vec<char>| row@) == self.grid(),
    {
        &self.0
    }
}

/// The character that the last pair for `key` gives, or `'\0'`.
fn lookup_key(pairs: &Vec<(Key, char)>, key: Key) -> (r: char)
    ensures
        r == cell_of(pairs@, key.0, key.1),
{
    let mut i: usize = pairs.len();
    proof {
        assert(pairs@.take(i as int) =~= pairs@);
    }
    while i > 0
        invariant
            i <= pairs.len(),
            forall|j: int| i <= j < pairs.len() ==> (#[trigger] pairs@[j]).0 != key,
            cell_of(pairs@, key.0, key.1) == cell_of(pairs@.take(i as int), key.0, key.1),
        decreases i,
    {
        proof {
            assert(pairs@.take(i as int).drop_last() =~= pairs@.take(i - 1));
        }
        let p = pairs[i - 1];
        if p.0.0 == key.0 && p.0.1 == key.1 {
            return p.1;
        }
        i -= 1;
    }
    proof {
        assert(pairs@.take(0).len() == 0);
    }
    '\0'
}

} // verus!
