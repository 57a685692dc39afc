use vstd::prelude::*;
use crate::compilation::encoding::{distinct, eq_is_identity, repeated};
use crate::generation::encoding::Encoding;

verus! {

/// The code points of `s`.
pub open spec fn codes(s: Seq<char>) -> Seq<u32> {
    s.map_values(|c: char| c as u32)
}

/// The code points of `s`.
pub fn code_points(s: &Vec<char>) -> (r: Vec<u32>)
    ensures
        r@ == codes(s@),
{
    let mut r: Vec<u32> = Vec::new();
    let mut i: usize = 0;
    while i < s.len()
        invariant
            i <= s.len(),
            r@ == codes(s@.take(i as int)),
        decreases s.len() - i,
    {
        r.push(s[i] as u32);
        proof {
            assert(codes(s@.take(i + 1)) =~= codes(s@.take(i as int)).push(s@[i as int] as u32));
        }
        i += 1;
    }
    proof {
        assert(s@.take(s.len() as int) =~= s@);
    }
    r
}

pub proof fn lemma_codes_distinct(s: Seq<char>)
    ensures
        distinct(codes(s)) <==> distinct(s),
{
    assert forall|i: int, j: int| 0 <= i < j < s.len() implies (codes(s)[i] == codes(s)[j] <==> s[i] == s[j]) by {
        assert(codes(s)[i] == s[i] as u32);
        assert(codes(s)[j] == s[j] as u32);
        vstd::utf8::char_u32_cast(s[i], s[i] as u32);
        vstd::utf8::char_u32_cast(s[j], s[j] as u32);
    }
}

/// The character of `list` whose code point is `code`.
fn char_of(list: &Vec<char>, code: u32) -> (r: char)
    requires
        codes(list@).contains(code),
    ensures
        r as u32 == code,
        list@.contains(r),
{
    let mut i: usize = 0;
    while i < list.len()
        invariant
            codes(list@).contains(code),
            i <= list.len(),
            forall|j: int| 0 <= j < i ==> list@[j] as u32 != code,
        decreases list.len() - i,
    {
        if list[i] as u32 == code {
            return list[i];
        }
        i += 1;
    }
    proof {
        let j = choose|j: int| 0 <= j < codes(list@).len() && codes(list@)[j] == code;
        assert(list@[j] as u32 == code);
    }
    list[0]
}

/// Why keys and characters do not make a layout encoding.
#[derive(Clone, Debug)]
pub struct InvalidLayoutEncoding<K> {
    pub duplicate_keys: Vec<K>,
    pub duplicate_chars: Vec<char>,
    pub different_counts: Option<(usize, usize)>,
}

/// The encodings of the keys and of the characters of a layout. Characters
/// are encoded by code point.
#[derive(Debug)]
pub struct LayoutEncoding<K> {
    pub keys: Encoding<K>,
    pub chars: Encoding<u32>,
    pub char_list: Vec<char>,
}

impl<K: Copy + PartialEq> LayoutEncoding<K> {
    pub open spec fn wf(&self) -> bool {
        &&& self.keys.values().len() == self.chars.values().len()
        &&& distinct(self.keys.values())
        &&& distinct(self.chars.values())
        &&& self.chars.values() == codes(self.char_list@)
    }

    /// Encodes `keys` and `chars`, which must be as many and each without
    /// repetition.
    pub fn new(keys: Vec<K>, chars: Vec<char>) -> (r: Result<Self, InvalidLayoutEncoding<K>>)
        requires
            eq_is_identity::<K>(),
        ensures
            r is Ok <==> distinct(keys@) && distinct(chars@) && keys.len() == chars.len(),
            r matches Ok(e) ==> e.wf() && e.keys.values() == keys@ && e.char_list@ == chars@,
            r matches Err(e) ==> {
                &&& e.duplicate_keys@ == repeated(keys@)
                &&& codes(e.duplicate_chars@) == repeated(codes(chars@))
                &&& e.different_counts == (if keys.len() == chars.len() { None } else { Some((keys.len(), chars.len())) })
            },
    {
        let counts = if keys.len() == chars.len() {
            None
        } else {
            Some((keys.len(), chars.len()))
        };
        let cs = code_points(&chars);
        let ghost ks = keys@;
        let ghost cs0 = cs@;
        proof {
            lemma_codes_distinct(chars@);
            assert(eq_is_identity::<u32>());
        }
        match (Encoding::new(keys), Encoding::new(cs), counts) {
            (Ok(keys), Ok(codes_enc), None) => Ok(LayoutEncoding { keys, chars: codes_enc, char_list: chars }),
            (keys, codes_res, different_counts) => {
                proof {
                    if keys is Ok {
                        crate::compilation::encoding::lemma_repeated_distinct(ks);
                    }
                    if codes_res is Ok {
                        crate::compilation::encoding::lemma_repeated_distinct(cs0);
                    }
                }
                let duplicate_keys = match keys {
                    Ok(_) => Vec::new(),
                    Err(d) => d,
                };
                let duplicate_codes = match codes_res {
                    Ok(_) => Vec::new(),
                    Err(d) => d,
                };
                proof {
                    crate::compilation::encoding::lemma_repeated_within(cs0);
                }
                let mut duplicate_chars: Vec<char> = Vec::new();
                let mut i: usize = 0;
                while i < duplicate_codes.len()
                    invariant
                        i <= duplicate_codes.len(),
                        cs0 == codes(chars@),
                        forall|j: int| 0 <= j < duplicate_codes.len() ==> cs0.contains(#[trigger] duplicate_codes@[j]),
                        codes(duplicate_chars@) == duplicate_codes@.take(i as int),
                    decreases duplicate_codes.len() - i,
                {
                    let c = char_of(&chars, duplicate_codes[i]);
                    let ghost old_chars = duplicate_chars@;
                    duplicate_chars.push(c);
                    proof {
                        assert(codes(duplicate_chars@) =~= codes(duplicate_chars@.drop_last()).push(c as u32));
                        assert(duplicate_chars@.drop_last() == old_chars);
                        assert(duplicate_codes@.take(i + 1) =~= duplicate_codes@.take(i as int).push(duplicate_codes@[i as int]));
                        assert(codes(duplicate_chars@) =~= duplicate_codes@.take(i + 1));
                    }
                    i += 1;
                }
                proof {
                    assert(duplicate_codes@.take(duplicate_codes.len() as int) =~= duplicate_codes@);
                }
                Err(InvalidLayoutEncoding { duplicate_keys, duplicate_chars, different_counts })
            },
        }
    }

    /// The layout `vec` as pairs: character `c` with the key at position `vec[c]`.
    pub fn decode(&self, vec: Vec<usize>) -> (r: Vec<(K, char)>)
        requires
            self.wf(),
            vec.len() <= self.char_list.len(),
            forall|i: int| 0 <= i < vec.len() ==> #[trigger] vec@[i] < self.keys.values().len(),
        ensures
            r.len() == vec.len(),
            forall|c: int| 0 <= c < vec.len() ==> #[trigger] r@[c] == (self.keys.values()[vec@[c] as int], self.char_list@[c]),
    {
        let mut r: Vec<(K, char)> = Vec::new();
        let mut c: usize = 0;
        while c < vec.len()
            invariant
                self.wf(),
                vec.len() <= self.char_list.len(),
                forall|i: int| 0 <= i < vec.len() ==> #[trigger] vec@[i] < self.keys.values().len(),
                c <= vec.len(),
                r.len() == c,
                forall|j: int| 0 <= j < c ==> #[trigger] r@[j] == (self.keys.values()[vec@[j] as int], self.char_list@[j]),
            decreases vec.len() - c,
        {
            let k = *self.keys.decode(vec[c]);
            let ch = self.char_list[c];
            r.push((k, ch));
            c += 1;
        }
        r
    }

    /// The number of keys (and of characters).
    pub fn len(&self) -> (r: usize)
        ensures
            r == self.keys.values().len(),
    {
        self.keys.len()
    }
}

} // verus!
