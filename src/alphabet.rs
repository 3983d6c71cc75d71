//! A bijection between the characters of an alphabet and the digits
//! `0..radix`.
use vstd::prelude::*;
use crate::error::{Error, ErrorKind, Result};

verus! {

broadcast use vstd::string::axiom_spec_iter;

/// The characters of a string, in order.
pub fn str_chars(s: &str) -> (r: Vec<char>)
    ensures
        r@ == s@,
{
    let mut r: Vec<char> = Vec::new();
    for c in it: s.chars()
        invariant
            it.seq() == s@,
            r@ == it.seq().take(it.index() as int),
    {
        proof {
            assert(it.seq().take(it.index() + 1) =~= it.seq().take(it.index() as int).push(c));
        }
        r.push(c);
    }
    assert(r@ =~= s@);
    r
}

/// Relies on `String`'s `FromIterator<char>`: the characters in order.
#[verifier::external_body]
pub(crate) fn string_of(cs: &Vec<char>) -> (r: String)
    ensures
        r@ == cs@,
{
    cs.iter().collect()
}

/// The characters of `s` in reverse order.
pub fn reverse_chars(s: &[char]) -> (r: Vec<char>)
    ensures
        r@ == s@.reverse(),
{
    let mut r: Vec<char> = Vec::new();
    let mut i: usize = s.len();
    while i > 0
        invariant
            i <= s@.len(),
            r@ =~= s@.subrange(i as int, s@.len() as int).reverse(),
        decreases i,
    {
        i = i - 1;
        r.push(s[i]);
        proof {
            assert(r@ =~= s@.subrange(i as int, s@.len() as int).reverse());
        }
    }
    assert(s@.subrange(0, s@.len() as int) =~= s@);
    r
}

/// No character occurs twice.
pub open spec fn distinct(s: Seq<char>) -> bool {
    forall|i: int, j: int| 0 <= i < j < s.len() ==> s[i] != s[j]
}

/// The characters that an alphabet takes from its source: the first `lim`
/// of them, and none where no positive limit is given.
pub open spec fn chosen(s: Seq<char>, opt_lim: Option<usize>) -> Seq<char> {
    match opt_lim {
        Some(l) => if l > 0 && l <= s.len() {
            s.take(l as int)
        } else if l > 0 {
            s
        } else {
            Seq::empty()
        },
        None => Seq::empty(),
    }
}

/// The source is shorter than the limit.
pub open spec fn too_short(s: Seq<char>, opt_lim: Option<usize>) -> bool {
    opt_lim matches Some(l) && l > 0 && s.len() < l
}

struct Letter {
    val: char,
    pos: usize,
}

/// An ordered set of distinct characters, with a table sorted by character
/// for lookup.
pub struct Alphabet {
    by_pos: Vec<char>,
    by_ltr: Vec<Letter>,
    inv: Ghost<Seq<int>>,
}

/// The lookup table over the first `n` letters is sorted by character, and
/// each entry names the position of its letter.
spec fn table_ok(by_pos: Seq<char>, by_ltr: Seq<Letter>, inv: Seq<int>, n: int) -> bool {
    &&& 0 <= n <= by_pos.len()
    &&& by_ltr.len() == n
    &&& inv.len() == n
    &&& forall|j: int|
        0 <= j < n ==> (#[trigger] by_ltr[j]).pos < n && by_pos[by_ltr[j].pos as int]
            == by_ltr[j].val
    &&& forall|j1: int, j2: int|
        0 <= j1 < j2 < n ==> (by_ltr[j1].val as u32) < (by_ltr[j2].val as u32)
    &&& forall|k: int| 0 <= k < n ==> 0 <= #[trigger] inv[k] < n && by_ltr[inv[k]].pos == k
}

impl View for Alphabet {
    type V = Seq<char>;

    closed spec fn view(&self) -> Seq<char> {
        self.by_pos@
    }
}

proof fn lemma_table_distinct(by_pos: Seq<char>, by_ltr: Seq<Letter>, inv: Seq<int>, n: int)
    requires
        table_ok(by_pos, by_ltr, inv, n),
    ensures
        forall|k1: int, k2: int| 0 <= k1 < k2 < n ==> by_pos[k1] != by_pos[k2],
{
    assert forall|k1: int, k2: int| 0 <= k1 < k2 < n implies by_pos[k1] != by_pos[k2] by {
        let j1 = inv[k1];
        let j2 = inv[k2];
        assert(by_ltr[j1].pos == k1);
        assert(by_ltr[j2].pos == k2);
        assert(by_ltr[j1].val == by_pos[k1]);
        assert(by_ltr[j2].val == by_pos[k2]);
        if j1 < j2 {
            assert((by_ltr[j1].val as u32) < (by_ltr[j2].val as u32));
        } else if j2 < j1 {
            assert((by_ltr[j2].val as u32) < (by_ltr[j1].val as u32));
        }
    }
}

/// The first index of the sorted table whose character is not below `c`.
fn lower_bound(by_ltr: &Vec<Letter>, c: char) -> (r: usize)
    requires
        forall|j1: int, j2: int|
            0 <= j1 < j2 < by_ltr@.len() ==> (by_ltr@[j1].val as u32) < (by_ltr@[j2].val as u32),
    ensures
        r <= by_ltr@.len(),
        forall|j: int| 0 <= j < r ==> (by_ltr@[j].val as u32) < (c as u32),
        forall|j: int| r <= j < by_ltr@.len() ==> (by_ltr@[j].val as u32) >= (c as u32),
{
    let mut lo: usize = 0;
    let mut hi: usize = by_ltr.len();
    while lo < hi
        invariant
            lo <= hi <= by_ltr@.len(),
            forall|j1: int, j2: int|
                0 <= j1 < j2 < by_ltr@.len() ==> (by_ltr@[j1].val as u32) < (by_ltr@[j2].val
                    as u32),
            forall|j: int| 0 <= j < lo ==> (by_ltr@[j].val as u32) < (c as u32),
            forall|j: int| hi <= j < by_ltr@.len() ==> (by_ltr@[j].val as u32) >= (c as u32),
        decreases hi - lo,
    {
        let mid = lo + (hi - lo) / 2;
        if (by_ltr[mid].val as u32) < (c as u32) {
            lo = mid + 1;
        } else {
            hi = mid;
        }
    }
    lo
}

impl Alphabet {
    pub closed spec fn wf(&self) -> bool {
        table_ok(self.by_pos@, self.by_ltr@, self.inv@, self.by_pos@.len() as int)
    }

    /// A well-formed alphabet has no repeated character.
    pub proof fn lemma_distinct(&self)
        requires
            self.wf(),
        ensures
            distinct(self@),
    {
        lemma_table_distinct(self.by_pos@, self.by_ltr@, self.inv@, self.by_pos@.len() as int);
    }

    /// Takes the first `lim` characters of `s`; fails where `s` has fewer, or
    /// where two of them are equal.
    pub fn new(s: &str, opt_lim: Option<usize>) -> (r: Result<Alphabet>)
        ensures
            r is Ok <==> !too_short(s@, opt_lim) && distinct(chosen(s@, opt_lim)),
            r matches Ok(a) ==> a.wf() && a@ == chosen(s@, opt_lim),
            r matches Err(e) ==> (too_short(s@, opt_lim) ==> e.kind == ErrorKind::AlphabetTooShort),
            r matches Err(e) ==> (!too_short(s@, opt_lim) ==> e.kind
                == ErrorKind::DuplicateAlphabet),
    {
        let lim: usize = match opt_lim {
            Some(l) => l,
            None => 0,
        };
        let all = str_chars(s);
        if lim > 0 && lim > all.len() {
            return Err(Error::new(ErrorKind::AlphabetTooShort));
        }
        let take: usize = if lim > 0 {
            lim
        } else {
            0
        };
        let mut by_pos: Vec<char> = Vec::new();
        let mut i: usize = 0;
        while i < take
            invariant
                take <= all@.len(),
                i <= take,
                by_pos@ =~= all@.take(i as int),
            decreases take - i,
        {
            by_pos.push(all[i]);
            i = i + 1;
        }
        assert(by_pos@ =~= chosen(s@, opt_lim));
        let n = by_pos.len();
        let mut by_ltr: Vec<Letter> = Vec::new();
        let ghost mut inv: Seq<int> = Seq::empty();
        let mut i: usize = 0;
        while i < n
            invariant
                n == by_pos@.len(),
                by_pos@ == chosen(s@, opt_lim),
                !too_short(s@, opt_lim),
                i <= n,
                table_ok(by_pos@, by_ltr@, inv, i as int),
            decreases n - i,
        {
            let c = by_pos[i];
            let p = lower_bound(&by_ltr, c);
            if p < by_ltr.len() && by_ltr[p].val == c {
                proof {
                    let k = by_ltr@[p as int].pos as int;
                    assert(by_pos@[k] == c);
                    assert(k < i);
                }
                return Err(Error::new(ErrorKind::DuplicateAlphabet));
            }
            let ghost old_ltr = by_ltr@;
            let ghost old_inv = inv;
            let letter = Letter { val: c, pos: i };
            let ghost gl = letter;
            by_ltr.insert(p, letter);
            proof {
                old_ltr.insert_ensures(p as int, gl);
                assert(by_ltr@.len() == i + 1);
                inv = Seq::new(
                    (i + 1) as nat,
                    |k: int|
                        if k == i {
                            p as int
                        } else if old_inv[k] >= p {
                            old_inv[k] + 1
                        } else {
                            old_inv[k]
                        },
                );
                assert forall|j: int| 0 <= j < i + 1 implies (#[trigger] by_ltr@[j]).pos < i + 1
                    && by_pos@[by_ltr@[j].pos as int] == by_ltr@[j].val by {
                    if j < p {
                        assert(by_ltr@[j] == old_ltr[j]);
                    } else if j > p {
                        assert(by_ltr@[j] == old_ltr[j - 1]);
                    }
                }
                assert forall|j1: int, j2: int| 0 <= j1 < j2 < i + 1 implies (
                by_ltr@[j1].val as u32) < (by_ltr@[j2].val as u32) by {
                    if j1 < p && j2 < p {
                        assert(by_ltr@[j1] == old_ltr[j1]);
                        assert(by_ltr@[j2] == old_ltr[j2]);
                    } else if j1 < p && j2 == p {
                        assert(by_ltr@[j1] == old_ltr[j1]);
                    } else if j1 < p {
                        assert(by_ltr@[j1] == old_ltr[j1]);
                        assert(by_ltr@[j2] == old_ltr[j2 - 1]);
                    } else if j1 == p {
                        assert(by_ltr@[j2] == old_ltr[j2 - 1]);
                        assert((old_ltr[j2 - 1].val as u32) >= (c as u32));
                        assert(old_ltr[p as int].val != c);
                        if j2 - 1 > p {
                            assert((old_ltr[p as int].val as u32) < (old_ltr[j2 - 1].val
                                as u32));
                        }
                        assert((old_ltr[p as int].val as u32) != (c as u32));
                    } else {
                        assert(by_ltr@[j1] == old_ltr[j1 - 1]);
                        assert(by_ltr@[j2] == old_ltr[j2 - 1]);
                    }
                }
                assert forall|k: int| 0 <= k < i + 1 implies 0 <= #[trigger] inv[k] < i + 1
                    && by_ltr@[inv[k]].pos == k by {
                    if k < i {
                        let j = old_inv[k];
                        assert(old_ltr[j].pos == k);
                        if j >= p {
                            assert(by_ltr@[j + 1] == old_ltr[j]);
                        } else {
                            assert(by_ltr@[j] == old_ltr[j]);
                        }
                    }
                }
            }
            i = i + 1;
        }
        let a = Alphabet { by_pos, by_ltr, inv: Ghost(inv) };
        proof {
            a.lemma_distinct();
        }
        Ok(a)
    }

    pub fn len(&self) -> (r: usize)
        ensures
            r == self@.len(),
    {
        self.by_pos.len()
    }

    /// The digit of a character.
    pub fn ltr(&self, c: char) -> (r: Result<usize>)
        requires
            self.wf(),
        ensures
            r is Ok <==> self@.contains(c),
            r matches Ok(i) ==> i < self@.len() && self@[i as int] == c,
            r matches Err(e) ==> e.kind == ErrorKind::InvalidCharacter,
    {
        let p = lower_bound(&self.by_ltr, c);
        if p < self.by_ltr.len() && self.by_ltr[p].val == c {
            Ok(self.by_ltr[p].pos)
        } else {
            proof {
                assert forall|k: int| 0 <= k < self@.len() implies self@[k] != c by {
                    let j = self.inv@[k];
                    assert(self.by_ltr@[j].pos == k);
                    assert(self.by_ltr@[j].val == self@[k]);
                    if self@[k] == c {
                        if j < p {
                            assert((self.by_ltr@[j].val as u32) < (c as u32));
                        } else if j > p {
                            assert((self.by_ltr@[p as int].val as u32) < (self.by_ltr@[j].val
                                as u32));
                        }
                    }
                }
            }
            Err(Error::new(ErrorKind::InvalidCharacter))
        }
    }

    /// The character of the digit zero.
    pub fn zero_char(&self) -> (r: char)
        requires
            self@.len() > 0,
        ensures
            r == self@[0],
    {
        self.by_pos[0]
    }

    /// The character of a digit.
    pub fn pos(&self, i: usize) -> (r: Result<char>)
        requires
            i < self@.len(),
        ensures
            r == Ok::<char, Error>(self@[i as int]),
    {
        Ok(self.by_pos[i])
    }
}

} // verus!
