use vstd::prelude::*;
use vstd::string::StrSliceExecFns;

use crate::crypto::random::ByteSource;
use crate::crypto::secret::{guarded_text, GuardedText};
use crate::errors::{Error, Result};
use crate::text::push_char;

verus! {

pub const DEFAULT_LENGTH: usize = 20;
pub const MIN_LENGTH: usize = 8;
pub const MAX_LENGTH: usize = 128;

pub const LOWERCASE: &'static str = "abcdefghijklmnopqrstuvwxyz";
pub const UPPERCASE: &'static str = "ABCDEFGHIJKLMNOPQRSTUVWXYZ";
pub const DIGITS: &'static str = "0123456789";
pub const SYMBOLS: &'static str = "!@#$%^&*()-_=+[]{};:,.<>?/~";

/// Characters left out when `exclude_ambiguous` is set: they are easily
/// mistaken for one another.
pub const AMBIGUOUS: &'static str = "0O1lI|`'\"`";

/// What a generated password is made of.
#[derive(Clone, Debug)]
pub struct GenOptions {
    pub length: usize,
    pub lowercase: bool,
    pub uppercase: bool,
    pub digits: bool,
    pub symbols: bool,
    pub exclude_ambiguous: bool,
}

impl Default for GenOptions {
    fn default() -> (r: Self)
        ensures
            r.length == DEFAULT_LENGTH,
            r.lowercase && r.uppercase && r.digits && r.symbols && r.exclude_ambiguous,
    {
        GenOptions {
            length: DEFAULT_LENGTH,
            lowercase: true,
            uppercase: true,
            digits: true,
            symbols: true,
            exclude_ambiguous: true,
        }
    }
}

/// The characters of `s` that are not ambiguous, in order.
pub open spec fn unambiguous(s: Seq<char>) -> Seq<char>
    decreases s.len(),
{
    if s.len() == 0 {
        Seq::empty()
    } else {
        let r = unambiguous(s.drop_last());
        if AMBIGUOUS@.contains(s.last()) {
            r
        } else {
            r.push(s.last())
        }
    }
}

/// The characters that a class contributes.
pub open spec fn alphabet_of(class: Seq<char>, exclude_ambiguous: bool) -> Seq<char> {
    if exclude_ambiguous {
        unambiguous(class)
    } else {
        class
    }
}

/// The sequences that are not empty, in order.
pub open spec fn nonempty_only(cs: Seq<Seq<char>>) -> Seq<Seq<char>>
    decreases cs.len(),
{
    if cs.len() == 0 {
        Seq::empty()
    } else {
        let r = nonempty_only(cs.drop_last());
        if cs.last().len() > 0 {
            r.push(cs.last())
        } else {
            r
        }
    }
}

/// The sequences one after the other.
pub open spec fn concat(cs: Seq<Seq<char>>) -> Seq<char>
    decreases cs.len(),
{
    if cs.len() == 0 {
        Seq::empty()
    } else {
        concat(cs.drop_last()) + cs.last()
    }
}

impl GenOptions {
    /// The length is within the bounds and some class is enabled.
    pub open spec fn valid(self) -> bool {
        MIN_LENGTH <= self.length <= MAX_LENGTH && (self.lowercase || self.uppercase || self.digits
            || self.symbols)
    }

    /// The alphabets of the enabled classes, in the order lower case, upper
    /// case, digits, symbols.
    pub open spec fn requested(self) -> Seq<Seq<char>> {
        let ex = self.exclude_ambiguous;
        let s0 = Seq::<Seq<char>>::empty();
        let s1 = if self.lowercase {
            s0.push(alphabet_of(LOWERCASE@, ex))
        } else {
            s0
        };
        let s2 = if self.uppercase {
            s1.push(alphabet_of(UPPERCASE@, ex))
        } else {
            s1
        };
        let s3 = if self.digits {
            s2.push(alphabet_of(DIGITS@, ex))
        } else {
            s2
        };
        if self.symbols {
            s3.push(alphabet_of(SYMBOLS@, ex))
        } else {
            s3
        }
    }

    /// The alphabets that a password draws from: the enabled ones that are
    /// not empty.
    pub open spec fn classes(self) -> Seq<Seq<char>> {
        nonempty_only(self.requested())
    }

    /// All the characters that a password may hold.
    pub open spec fn pool(self) -> Seq<char> {
        concat(self.classes())
    }

    /// What a password generated with these options is: of the requested
    /// length, made of characters of the pool, with a character of every
    /// class.
    pub open spec fn generates(self, s: Seq<char>) -> bool {
        &&& s.len() == self.length
        &&& forall|k: int| 0 <= k < s.len() ==> self.pool().contains(#[trigger] s[k])
        &&& forall|c: int|
            0 <= c < self.classes().len() ==> exists|k: int|
                0 <= k < s.len() && (#[trigger] self.classes()[c]).contains(#[trigger] s[k])
    }

    pub fn validate(&self) -> (r: Result<()>)
        ensures
            !(MIN_LENGTH <= self.length <= MAX_LENGTH) ==> r == Err::<(), Error>(
                Error::InvalidFormat("invalid password length"),
            ),
            MIN_LENGTH <= self.length <= MAX_LENGTH && !(self.lowercase || self.uppercase || self.digits
                || self.symbols) ==> r == Err::<(), Error>(
                Error::InvalidFormat("at least one character class must be enabled"),
            ),
            self.valid() ==> r == Ok::<(), Error>(()),
    {
        if !(MIN_LENGTH <= self.length && self.length <= MAX_LENGTH) {
            return Err(Error::InvalidFormat("invalid password length"));
        }
        if !(self.lowercase || self.uppercase || self.digits || self.symbols) {
            return Err(Error::InvalidFormat("at least one character class must be enabled"));
        }
        Ok(())
    }

    /// The characters of `class` that these options allow, in order.
    pub fn alphabet(&self, class: &str) -> (r: Vec<char>)
        ensures
            r@ == alphabet_of(class@, self.exclude_ambiguous),
    {
        let n = class.unicode_len();
        let mut out: Vec<char> = Vec::new();
        let mut i: usize = 0;
        while i < n
            invariant
                n == class@.len(),
                i <= n,
                out@ == alphabet_of(class@.take(i as int), self.exclude_ambiguous),
            decreases n - i,
        {
            let c = class.get_char(i);
            proof {
                assert(class@.take(i + 1).drop_last() =~= class@.take(i as int));
                assert(class@.take(i + 1).last() == c);
            }
            if !self.exclude_ambiguous || !is_ambiguous(c) {
                out.push(c);
            }
            i += 1;
        }
        assert(class@.take(n as int) =~= class@);
        out
    }
}

/// Whether `c` is one of the ambiguous characters.
fn is_ambiguous(c: char) -> (r: bool)
    ensures
        r == AMBIGUOUS@.contains(c),
{
    let n = AMBIGUOUS.unicode_len();
    let mut i: usize = 0;
    while i < n
        invariant
            n == AMBIGUOUS@.len(),
            i <= n,
            forall|j: int| 0 <= j < i ==> AMBIGUOUS@[j] != c,
        decreases n - i,
    {
        if AMBIGUOUS.get_char(i) == c {
            return true;
        }
        i += 1;
    }
    false
}

proof fn lemma_unambiguous(s: Seq<char>)
    ensures
        unambiguous(s).len() <= s.len(),
        forall|x: char| #[trigger] unambiguous(s).contains(x) ==> s.contains(x) && !AMBIGUOUS@.contains(x),
    decreases s.len(),
{
    if s.len() > 0 {
        lemma_unambiguous(s.drop_last());
        let r = unambiguous(s.drop_last());
        assert forall|x: char| #[trigger] unambiguous(s).contains(x) implies s.contains(x)
            && !AMBIGUOUS@.contains(x) by {
            let k = choose|k: int| 0 <= k < unambiguous(s).len() && unambiguous(s)[k] == x;
            if k < r.len() {
                assert(r[k] == x);
                assert(r.contains(x));
                let m = choose|m: int| 0 <= m < s.drop_last().len() && s.drop_last()[m] == x;
                assert(s[m] == x);
            } else {
                assert(x == s.last());
                assert(s[s.len() - 1] == x);
            }
        }
    }
}

proof fn lemma_nonempty_only(cs: Seq<Seq<char>>)
    ensures
        nonempty_only(cs).len() <= cs.len(),
        forall|i: int|
            0 <= i < nonempty_only(cs).len() ==> #[trigger] nonempty_only(cs)[i].len() > 0
                && exists|j: int| 0 <= j < cs.len() && cs[j] == nonempty_only(cs)[i],
    decreases cs.len(),
{
    if cs.len() > 0 {
        lemma_nonempty_only(cs.drop_last());
        let r = nonempty_only(cs.drop_last());
        assert forall|i: int| 0 <= i < nonempty_only(cs).len() implies #[trigger] nonempty_only(cs)[i].len()
            > 0 && exists|j: int| 0 <= j < cs.len() && cs[j] == nonempty_only(cs)[i] by {
            if i < r.len() {
                assert(nonempty_only(cs)[i] == r[i]);
                let j = choose|j: int| 0 <= j < cs.drop_last().len() && cs.drop_last()[j] == r[i];
                assert(cs[j] == r[i]);
            } else {
                assert(cs[cs.len() - 1] == nonempty_only(cs)[i]);
            }
        }
    }
}

proof fn lemma_concat_contains(cs: Seq<Seq<char>>, c: int, x: char)
    requires
        0 <= c < cs.len(),
        cs[c].contains(x),
    ensures
        concat(cs).contains(x),
    decreases cs.len(),
{
    let r = concat(cs.drop_last());
    if c < cs.len() - 1 {
        lemma_concat_contains(cs.drop_last(), c, x);
        let k = choose|k: int| 0 <= k < r.len() && r[k] == x;
        assert(concat(cs)[k] == x);
    } else {
        let k = choose|k: int| 0 <= k < cs.last().len() && cs.last()[k] == x;
        assert(concat(cs)[r.len() + k] == x);
    }
}

proof fn lemma_concat_member(cs: Seq<Seq<char>>, x: char)
    requires
        concat(cs).contains(x),
    ensures
        exists|c: int| 0 <= c < cs.len() && (#[trigger] cs[c]).contains(x),
    decreases cs.len(),
{
    let r = concat(cs.drop_last());
    let k = choose|k: int| 0 <= k < concat(cs).len() && concat(cs)[k] == x;
    if k < r.len() {
        assert(r[k] == x);
        lemma_concat_member(cs.drop_last(), x);
        let c = choose|c: int| 0 <= c < cs.drop_last().len() && (#[trigger] cs.drop_last()[c]).contains(x);
        assert(cs[c] == cs.drop_last()[c]);
    } else {
        assert(cs.last()[k - r.len()] == x);
        assert(cs[cs.len() - 1].contains(x));
    }
}

proof fn lemma_concat_len(cs: Seq<Seq<char>>, m: nat)
    requires
        forall|i: int| 0 <= i < cs.len() ==> (#[trigger] cs[i]).len() <= m,
    ensures
        concat(cs).len() <= cs.len() * m,
    decreases cs.len(),
{
    if cs.len() > 0 {
        lemma_concat_len(cs.drop_last(), m);
        assert(cs[cs.len() - 1].len() <= m);
        assert((cs.len() - 1) * m + m == cs.len() * m) by (nonlinear_arith);
    }
}

/// The classes hold at most four alphabets of at most 27 characters, so
/// the pool holds at most 108.
proof fn lemma_pool_bounds(o: GenOptions)
    ensures
        o.classes().len() <= 4,
        forall|i: int| 0 <= i < o.classes().len() ==> 0 < (#[trigger] o.classes()[i]).len() <= 27,
        o.pool().len() <= 108,
{
    reveal_strlit("abcdefghijklmnopqrstuvwxyz");
    reveal_strlit("ABCDEFGHIJKLMNOPQRSTUVWXYZ");
    reveal_strlit("0123456789");
    reveal_strlit("!@#$%^&*()-_=+[]{};:,.<>?/~");
    lemma_unambiguous(LOWERCASE@);
    lemma_unambiguous(UPPERCASE@);
    lemma_unambiguous(DIGITS@);
    lemma_unambiguous(SYMBOLS@);
    let req = o.requested();
    assert(req.len() <= 4);
    assert forall|i: int| 0 <= i < req.len() implies (#[trigger] req[i]).len() <= 27 by {}
    lemma_nonempty_only(req);
    let cs = o.classes();
    assert forall|i: int| 0 <= i < cs.len() implies 0 < (#[trigger] cs[i]).len() <= 27 by {
        let j = choose|j: int| 0 <= j < req.len() && req[j] == cs[i];
        assert(req[j].len() <= 27);
    }
    lemma_concat_len(cs, 27);
}

/// Every character of the pool is in one of the classes; none is
/// ambiguous when ambiguous characters are excluded.
proof fn lemma_pool_member(o: GenOptions, x: char)
    requires
        o.pool().contains(x),
    ensures
        o.exclude_ambiguous ==> !AMBIGUOUS@.contains(x),
{
    lemma_concat_member(o.classes(), x);
    let cs = o.classes();
    let req = o.requested();
    let c = choose|c: int| 0 <= c < cs.len() && (#[trigger] cs[c]).contains(x);
    lemma_nonempty_only(req);
    let j = choose|j: int| 0 <= j < req.len() && req[j] == cs[c];
    lemma_unambiguous(LOWERCASE@);
    lemma_unambiguous(UPPERCASE@);
    lemma_unambiguous(DIGITS@);
    lemma_unambiguous(SYMBOLS@);
    assert(req[j].contains(x));
}

/// The bytes below this bound are accepted when drawing from a set of
/// `len` characters: the largest multiple of `len` that fits in a byte.
pub open spec fn usable(len: int) -> int {
    256 - 256int % len
}

/// The character that a random byte picks from `set`: the byte's
/// remainder by the set's size when the byte is below `usable`, else none
/// (the byte is rejected, so that every character is equally likely).
pub fn pick_from(set: &[char], byte: u8) -> (r: Option<char>)
    requires
        1 <= set@.len() <= 256,
    ensures
        byte < usable(set@.len() as int) ==> r == Some(set@[byte as int % set@.len() as int]),
        byte >= usable(set@.len() as int) ==> r is None,
{
    let len = set.len();
    let usable_bound: usize = 256 - (256 % len);
    let v = byte as usize;
    if v < usable_bound {
        Some(set[v % len])
    } else {
        None
    }
}

/// Every character of a set of at most 256 can be picked: the byte equal
/// to its position is accepted and picks it, and so does every byte that
/// is accepted and has that remainder; no accepted byte picks outside the
/// set.
pub proof fn lemma_every_character_reachable(len: int)
    requires
        1 <= len <= 256,
    ensures
        len <= usable(len) <= 256,
        usable(len) % len == 0,
        forall|i: int| 0 <= i < len ==> #[trigger] (i % len) == i && i < usable(len),
        forall|v: int| 0 <= v < usable(len) ==> 0 <= #[trigger] (v % len) < len,
{
    let q = 256int / len;
    let r = 256int % len;
    assert(256int == q * len + r && 0 <= r < len) by (nonlinear_arith)
        requires
            1 <= len,
            q == 256int / len,
            r == 256int % len,
    ;
    assert(q >= 1) by (nonlinear_arith)
        requires
            256int == q * len + r,
            0 <= r < len,
            len <= 256,
    ;
    assert(usable(len) == q * len);
    assert(q * len >= len) by (nonlinear_arith)
        requires
            q >= 1,
            len >= 1,
    ;
    assert((q * len) % len == 0) by (nonlinear_arith)
        requires
            len >= 1,
    ;
    assert forall|i: int| 0 <= i < len implies #[trigger] (i % len) == i && i < usable(len) by {
        assert(i % len == i) by (nonlinear_arith)
            requires
                0 <= i < len,
        ;
    }
    assert forall|v: int| 0 <= v < usable(len) implies 0 <= #[trigger] (v % len) < len by {
        assert(0 <= v % len < len) by (nonlinear_arith)
            requires
                len >= 1,
        ;
    }
}

/// A character of `set` drawn uniformly from the random source `src`:
/// bytes are drawn until `pick_from` accepts one, and the character is the
/// one that this last byte picks. After `u64::MAX` rejected bytes it gives
/// up with `Rng`.
fn pick_uniform(set: &[char], src: &mut ByteSource) -> (r: Result<char>)
    requires
        1 <= set@.len() <= 256,
    ensures
        final(src).drawn().len() >= old(src).drawn().len(),
        final(src).drawn().subrange(0, old(src).drawn().len() as int) == old(src).drawn(),
        r matches Ok(c) ==> set@.contains(c),
        r matches Ok(c) ==> {
            let d = final(src).drawn();
            let n0 = old(src).drawn().len() as int;
            &&& d.len() > n0
            &&& d.last() < usable(set@.len() as int)
            &&& c == set@[d.last() as int % set@.len() as int]
            &&& forall|k: int| n0 <= k < d.len() - 1 ==> #[trigger] d[k] >= usable(set@.len() as int)
        },
        r matches Err(e) ==> e == Error::Rng,
{
    let len = set.len();
    let ghost start = src.drawn();
    let mut attempts: u64 = 0;
    while attempts < u64::MAX
        invariant
            len == set@.len(),
            1 <= len <= 256,
            start == old(src).drawn(),
            src.drawn().len() >= start.len(),
            src.drawn().subrange(0, start.len() as int) == start,
            forall|k: int| start.len() <= k < src.drawn().len() ==> #[trigger] src.drawn()[k] >= usable(len as int),
        decreases u64::MAX - attempts,
    {
        let ghost before = src.drawn();
        let byte = src.next_byte()?;
        proof {
            assert(src.drawn().subrange(0, start.len() as int) =~= before.subrange(0, start.len() as int));
        }
        if let Some(c) = pick_from(set, byte) {
            assert(set@[byte as int % len as int] == c);
            assert forall|k: int| start.len() <= k < src.drawn().len() - 1 implies #[trigger] src.drawn()[k]
                >= usable(len as int) by {
                assert(src.drawn()[k] == before[k]);
            }
            return Ok(c);
        }
        proof {
            assert forall|k: int| start.len() <= k < src.drawn().len() implies #[trigger] src.drawn()[k]
                >= usable(len as int) by {
                if k < before.len() {
                    assert(src.drawn()[k] == before[k]);
                }
            }
        }
        attempts += 1;
    }
    Err(Error::Rng)
}

/// One step of the shuffle: the characters at `i` and `j` trade places.
pub fn swap_step(out: &mut Vec<char>, i: usize, j: usize)
    requires
        i < old(out)@.len(),
        j < old(out)@.len(),
    ensures
        final(out)@ == old(out)@.update(i as int, old(out)@[j as int]).update(j as int, old(out)@[i as int]),
{
    let a = out[i];
    let b = out[j];
    out.set(i, b);
    out.set(j, a);
}

/// The position that a random byte picks below `bound`: the byte's
/// remainder by `bound`.
pub fn index_from_byte(byte: u8, bound: usize) -> (j: usize)
    requires
        1 <= bound,
    ensures
        j == byte as usize % bound,
        j < bound,
{
    byte as usize % bound
}

/// A random position from 0 to `bound` (exclusive): the position that
/// `index_from_byte` gives for the next byte drawn from `src`.
fn random_below(bound: usize, src: &mut ByteSource) -> (r: Result<usize>)
    requires
        1 <= bound,
    ensures
        r matches Ok(j) ==> j < bound,
        r matches Ok(j) ==> final(src).drawn().len() == old(src).drawn().len() + 1
            && final(src).drawn().drop_last() == old(src).drawn() && j == final(src).drawn().last() as int
            % bound as int,
        r matches Err(e) ==> e == Error::Rng,
{
    let byte = src.next_byte()?;
    Ok(index_from_byte(byte, bound))
}

/// A random password as `options` describe it, wiped when it is dropped. Fails as `validate` does on
/// options it refuses, when no class has a character left, and with `Rng`
/// when the random source fails.
pub fn generate(options: &GenOptions) -> (r: Result<GuardedText>)
    ensures
        !(MIN_LENGTH <= options.length <= MAX_LENGTH) ==> r == Err::<GuardedText, Error>(
            Error::InvalidFormat("invalid password length"),
        ),
        MIN_LENGTH <= options.length <= MAX_LENGTH && !(options.lowercase || options.uppercase
            || options.digits || options.symbols) ==> r == Err::<GuardedText, Error>(
            Error::InvalidFormat("at least one character class must be enabled"),
        ),
        options.valid() && options.classes().len() == 0 ==> r == Err::<GuardedText, Error>(
            Error::InvalidFormat("character set too small after ambiguity removal"),
        ),
        options.valid() && options.classes().len() > 0 ==> match r {
            Ok(s) => options.generates(guarded_text(s)),
            Err(e) => e == Error::Rng,
        },
        r matches Ok(s) ==> options.exclude_ambiguous ==> forall|k: int|
            0 <= k < guarded_text(s).len() ==> !AMBIGUOUS@.contains(#[trigger] guarded_text(s)[k]),
{
    options.validate()?;
    let mut src = ByteSource::new();
    let ghost req = options.requested();
    let mut classes: Vec<Vec<char>> = Vec::new();
    if options.lowercase {
        classes.push(options.alphabet(LOWERCASE));
    }
    if options.uppercase {
        classes.push(options.alphabet(UPPERCASE));
    }
    if options.digits {
        classes.push(options.alphabet(DIGITS));
    }
    if options.symbols {
        classes.push(options.alphabet(SYMBOLS));
    }
    assert(classes@.map_values(|v: Vec<char>| v@) =~= req);
    let mut kept: Vec<Vec<char>> = Vec::new();
    let mut c: usize = 0;
    while c < classes.len()
        invariant
            options.valid(),
            c <= classes@.len(),
            classes@.map_values(|v: Vec<char>| v@) == req,
            kept@.map_values(|v: Vec<char>| v@) == nonempty_only(req.take(c as int)),
        decreases classes@.len() - c,
    {
        proof {
            assert(req.take(c + 1).drop_last() =~= req.take(c as int));
            assert(req.take(c + 1).last() == classes@[c as int]@);
        }
        if classes[c].len() > 0 {
            kept.push(classes[c].clone());
            assert(kept@.map_values(|v: Vec<char>| v@) =~= nonempty_only(req.take(c + 1)));
        }
        c += 1;
    }
    assert(req.take(c as int) =~= req);
    let ghost cs = options.classes();
    proof {
        lemma_pool_bounds(*options);
    }
    if kept.len() == 0 {
        return Err(Error::InvalidFormat("character set too small after ambiguity removal"));
    }
    let mut pool: Vec<char> = Vec::new();
    let mut c: usize = 0;
    while c < kept.len()
        invariant
            options.valid(),
            cs == options.classes(),
            cs.len() > 0,
            c <= kept@.len(),
            kept@.map_values(|v: Vec<char>| v@) == cs,
            pool@ == concat(cs.take(c as int)),
        decreases kept@.len() - c,
    {
        let class = &kept[c];
        let mut k: usize = 0;
        while k < class.len()
            invariant
            options.valid(),
            cs == options.classes(),
            cs.len() > 0,
                k <= class@.len(),
                class@ == cs[c as int],
                c < cs.len(),
                pool@ == concat(cs.take(c as int)) + class@.take(k as int),
            decreases class@.len() - k,
        {
            pool.push(class[k]);
            assert(class@.take(k + 1) =~= class@.take(k as int).push(class@[k as int]));
            k += 1;
        }
        proof {
            assert(cs.take(c + 1).drop_last() =~= cs.take(c as int));
            assert(class@.take(k as int) =~= class@);
        }
        c += 1;
    }
    assert(cs.take(c as int) =~= cs);
    let n = options.length;
    let mut out: Vec<char> = Vec::new();
    let mut c: usize = 0;
    while c < kept.len()
        invariant
            options.valid(),
            cs == options.classes(),
            cs.len() > 0,
            c <= kept@.len(),
            kept@.map_values(|v: Vec<char>| v@) == cs,
            cs.len() <= 4,
            forall|i: int| 0 <= i < cs.len() ==> 0 < (#[trigger] cs[i]).len() <= 27,
            out@.len() == c,
            forall|i: int| 0 <= i < c ==> (#[trigger] cs[i]).contains(out@[i]),
        decreases kept@.len() - c,
    {
        assert(kept@[c as int]@ == cs[c as int]);
        let x = pick_uniform(kept[c].as_slice(), &mut src)?;
        out.push(x);
        c += 1;
    }
    proof {
        assert forall|i: int| 0 <= i < out@.len() implies options.pool().contains(#[trigger] out@[i]) by {
            lemma_concat_contains(cs, i, out@[i]);
        }
    }
    while out.len() < n
        invariant
            options.valid(),
            cs == options.classes(),
            cs.len() > 0,
            pool@ == options.pool(),
            1 <= pool@.len() <= 108,
            out@.len() >= cs.len(),
            out@.len() <= n,
            n == options.length,
            forall|k: int| 0 <= k < out@.len() ==> options.pool().contains(#[trigger] out@[k]),
            forall|i: int| 0 <= i < cs.len() ==> (#[trigger] cs[i]).contains(out@[i]),
        decreases n - out@.len(),
    {
        let x = pick_uniform(pool.as_slice(), &mut src)?;
        out.push(x);
    }
    let len = out.len();
    assert(len == n);
    proof {
        assert forall|i: int| 0 <= i < cs.len() implies exists|k: int|
            0 <= k < out@.len() && (#[trigger] cs[i]).contains(#[trigger] out@[k]) by {
            assert(cs[i].contains(out@[i]));
        }
    }
    let mut i: usize = len;
    while i > 1
        invariant
            options.valid(),
            cs == options.classes(),
            cs.len() > 0,
            1 <= i <= len,
            out@.len() == len,
            len == n,
            forall|k: int| 0 <= k < out@.len() ==> options.pool().contains(#[trigger] out@[k]),
            forall|ci: int|
                0 <= ci < cs.len() ==> exists|k: int|
                    0 <= k < out@.len() && (#[trigger] cs[ci]).contains(#[trigger] out@[k]),
        decreases i,
    {
        i -= 1;
        let j = random_below(i + 1, &mut src)?;
        let ghost before = out@;
        swap_step(&mut out, i, j);
        proof {
            assert forall|k: int| 0 <= k < out@.len() implies options.pool().contains(#[trigger] out@[k]) by {
                if k == i {
                    assert(before[j as int] == out@[k]);
                } else if k == j {
                    assert(before[i as int] == out@[k]);
                } else {
                    assert(before[k] == out@[k]);
                }
            }
            assert forall|ci: int| 0 <= ci < cs.len() implies exists|k: int|
                0 <= k < out@.len() && (#[trigger] cs[ci]).contains(#[trigger] out@[k]) by {
                let k = choose|k: int| 0 <= k < before.len() && (#[trigger] cs[ci]).contains(#[trigger] before[k]);
                let w = if k == i {
                    j as int
                } else if k == j {
                    i as int
                } else {
                    k
                };
                assert(out@[w] == before[k]);
                assert(cs[ci].contains(out@[w]));
            }
        }
    }
    let mut s = String::new();
    let mut k: usize = 0;
    while k < len
        invariant
            options.valid(),
            cs == options.classes(),
            cs.len() > 0,
            k <= len,
            out@.len() == len,
            s@ == out@.take(k as int),
        decreases len - k,
    {
        push_char(&mut s, out[k]);
        assert(out@.take(k + 1) =~= out@.take(k as int).push(out@[k as int]));
        k += 1;
    }
    assert(out@.take(len as int) =~= out@);
    proof {
        if options.exclude_ambiguous {
            assert forall|k: int| 0 <= k < s@.len() implies !AMBIGUOUS@.contains(#[trigger] s@[k]) by {
                lemma_pool_member(*options, s@[k]);
            }
        }
    }
    Ok(GuardedText::new(s))
}

} // verus!
