//! Content hashes and effective hashes, as tagged base-62 strings.
use crate::graph::Mangled;
use crate::text::keys_ascending;
use swc_core::ecma::ast::Program;
use vstd::arithmetic::div_mod::{
    lemma_div_denominator, lemma_fundamental_div_mod, lemma_mod_multiples_vanish, lemma_mul_mod_noop_left, lemma_small_mod,
};
use vstd::prelude::*;

verus! {

/// Content hash of a module: derived from its own content only.
pub struct AbsHash(pub String);

/// Effective hash of a module: its content hash together with the effective
/// hashes of its dependencies.
pub struct ImplHash(pub String);

impl View for AbsHash {
    type V = Seq<char>;

    open spec fn view(&self) -> Seq<char> {
        self.0@
    }
}

impl View for ImplHash {
    type V = Seq<char>;

    open spec fn view(&self) -> Seq<char> {
        self.0@
    }
}

impl AbsHash {
    pub fn duplicate(&self) -> (r: AbsHash)
        ensures
            r@ == self@,
    {
        AbsHash(self.0.clone())
    }
}

impl ImplHash {
    pub fn duplicate(&self) -> (r: ImplHash)
        ensures
            r@ == self@,
    {
        ImplHash(self.0.clone())
    }
}

#[verifier::external_type_specification]
#[verifier::external_body]
pub struct ExProgram(Program);

/// The 64-bit digest that std's `DefaultHasher` gives for strings fed to it
/// in order.
pub uninterp spec fn sip_digest(parts: Seq<Seq<char>>) -> u64;

pub open spec fn strings_view(parts: Seq<String>) -> Seq<Seq<char>> {
    parts.map_values(|p: String| p@)
}

/// Relies on `std::hash::DefaultHasher`: every hasher that `new` makes starts
/// alike, so the digest of the strings fed in order depends on them alone.
#[verifier::external_body]
fn digest_strings(parts: &Vec<String>) -> (r: u64)
    ensures
        r == sip_digest(strings_view(parts@)),
{
    let mut hasher = std::hash::DefaultHasher::new();
    for p in parts.iter() {
        std::hash::Hash::hash(p, &mut hasher);
    }
    std::hash::Hasher::finish(&hasher)
}

/// The 64-bit digest that std's `DefaultHasher` gives for a program.
pub uninterp spec fn program_digest_of(p: Program) -> u64;

/// Relies on the derived `Hash` impl of `swc_core`'s `Program`, fed to std's
/// `DefaultHasher`, whose hashers all start alike: the digest depends on the
/// program alone.
#[verifier::external_body]
fn program_digest(program: &Program) -> (r: u64)
    ensures
        r == program_digest_of(*program),
{
    let mut hasher = std::hash::DefaultHasher::new();
    std::hash::Hash::hash(program, &mut hasher);
    std::hash::Hasher::finish(&hasher)
}

/// Tag in front of every content hash.
pub open spec fn content_tag() -> Seq<char> {
    seq!['o', 's', 'h', 'a', '_', '1']
}

/// Tag in front of every effective hash.
pub open spec fn effective_tag() -> Seq<char> {
    seq!['o', 's', 'h', 'i', '_', '1']
}

/// The content hash whose digest is `d`.
pub open spec fn content_hash_spec(d: u64) -> Seq<char> {
    content_tag() + encode(d)
}

/// The effective hash whose digest is `d`.
pub open spec fn effective_hash_spec(d: u64) -> Seq<char> {
    effective_tag() + encode(d)
}

/// The strings hashed for an effective hash: the content hash, then each
/// dependency's key and effective hash, in the order given.
pub open spec fn effective_parts(abs: Seq<char>, deps: Seq<(Seq<char>, Seq<char>)>) -> Seq<Seq<char>>
    decreases deps.len(),
{
    if deps.len() == 0 {
        seq![abs]
    } else {
        effective_parts(abs, deps.drop_last()) + seq![deps.last().0, deps.last().1]
    }
}

/// The effective hash of a module with content hash `abs` whose dependencies
/// have the keys and effective hashes of `deps`.
pub open spec fn program_impl_hash_spec(abs: Seq<char>, deps: Seq<(Seq<char>, Seq<char>)>) -> Seq<char> {
    effective_hash_spec(sip_digest(effective_parts(abs, deps)))
}

pub open spec fn pair_keys(deps: Seq<(Seq<char>, Seq<char>)>) -> Seq<Seq<char>> {
    deps.map_values(|p: (Seq<char>, Seq<char>)| p.0)
}

pub open spec fn pairs_view(deps: Seq<(Mangled, ImplHash)>) -> Seq<(Seq<char>, Seq<char>)> {
    deps.map_values(|p: (Mangled, ImplHash)| (p.0@, p.1@))
}


/// Odd multiplier of the avalanche step.
pub const MULT: u64 = 0xc3326ad887ae7811;

/// Constant folded in by the last step of the avalanche.
pub const XOR: u64 = 0x7edd869db2c3af1f;

/// 62 to the power 10: the weight of the leading digit.
pub const TOP_WEIGHT: u64 = 839299365868340224;

/// Number of base-62 symbols in an encoded hash.
pub const HASH_LEN: usize = 11;

/// The digits, lower case and upper case letters, in that order.
pub open spec fn alphabet() -> Seq<char> {
    seq![
        '0', '1', '2', '3', '4', '5', '6', '7', '8', '9',
        'a', 'b', 'c', 'd', 'e', 'f', 'g', 'h', 'i', 'j', 'k', 'l', 'm',
        'n', 'o', 'p', 'q', 'r', 's', 't', 'u', 'v', 'w', 'x', 'y', 'z',
        'A', 'B', 'C', 'D', 'E', 'F', 'G', 'H', 'I', 'J', 'K', 'L', 'M',
        'N', 'O', 'P', 'Q', 'R', 'S', 'T', 'U', 'V', 'W', 'X', 'Y', 'Z',
    ]
}

/// Three rounds of multiply and xor-shift, then a fixed xor.
pub open spec fn scramble(num: u64) -> u64 {
    let n0 = num.wrapping_mul(MULT).wrapping_add(1);
    let n1 = n0 ^ (n0 >> 30u64);
    let n2 = n1.wrapping_mul(MULT);
    let n3 = n2 ^ (n2 >> 27u64);
    let n4 = n3.wrapping_mul(MULT);
    let n5 = n4 ^ (n4 >> 31u64);
    n5 ^ XOR
}

pub open spec fn pow62(e: nat) -> nat
    decreases e,
{
    if e == 0 {
        1
    } else {
        62 * pow62((e - 1) as nat)
    }
}

/// Digit `j` (most significant first) of `n` written with eleven base-62 digits.
pub open spec fn digit(n: nat, j: int) -> nat {
    (n / pow62((10 - j) as nat)) % 62
}

/// `n` written with exactly eleven base-62 symbols, most significant first.
pub open spec fn base62(n: nat) -> Seq<char> {
    Seq::new(11, |j: int| alphabet()[digit(n, j) as int])
}

/// The eleven-symbol encoding of a 64-bit digest.
pub open spec fn encode(num: u64) -> Seq<char> {
    base62(scramble(num) as nat)
}

fn scramble_exec(num: u64) -> (r: u64)
    ensures
        r == scramble(num),
{
    let mut n = num.wrapping_mul(MULT).wrapping_add(1);
    n = n ^ (n >> 30u64);
    n = n.wrapping_mul(MULT);
    n = n ^ (n >> 27u64);
    n = n.wrapping_mul(MULT);
    n = n ^ (n >> 31u64);
    n ^ XOR
}

proof fn lemma_pow62_pos(e: nat)
    ensures
        pow62(e) >= 1,
    decreases e,
{
    if e > 0 {
        lemma_pow62_pos((e - 1) as nat);
    }
}

proof fn lemma_top_weight()
    ensures
        pow62(10) == TOP_WEIGHT as nat,
{
    reveal_with_fuel(pow62, 11);
}

/// Encodes a 64-bit digest as eleven base-62 symbols after scrambling it.
pub fn u64_to_hash(num: u64) -> (r: String)
    ensures
        r@ == encode(num),
{
    let n = scramble_exec(num);
    let symbols: &str = "0123456789abcdefghijklmnopqrstuvwxyzABCDEFGHIJKLMNOPQRSTUVWXYZ";
    proof {
        reveal_strlit("0123456789abcdefghijklmnopqrstuvwxyzABCDEFGHIJKLMNOPQRSTUVWXYZ");
        assert(symbols@ =~= alphabet());
        lemma_top_weight();
    }
    let mut out = String::new();
    let mut weight: u64 = TOP_WEIGHT;
    let mut j: usize = 0;
    while j < HASH_LEN
        invariant
            j <= HASH_LEN,
            symbols@ == alphabet(),
            j < HASH_LEN ==> weight as nat == pow62((10 - j) as nat),
            out@ == base62(n as nat).subrange(0, j as int),
        decreases HASH_LEN - j,
    {
        proof {
            lemma_pow62_pos((10 - j) as nat);
        }
        let d: u64 = (n / weight) % 62;
        let piece = symbols.substring_char(d as usize, d as usize + 1);
        out.append(piece);
        proof {
            assert(piece@ =~= seq![alphabet()[d as int]]);
            assert(d as nat == digit(n as nat, j as int));
            assert(out@ =~= base62(n as nat).subrange(0, j + 1));
        }
        if j + 1 < HASH_LEN {
            proof {
                let e = (10 - j - 1) as nat;
                assert(pow62(e + 1) == 62 * pow62(e));
                assert((62 * pow62(e)) / 62 == pow62(e)) by (nonlinear_arith);
            }
            weight = weight / 62;
        }
        j = j + 1;
    }
    proof {
        assert(out@ =~= base62(n as nat));
    }
    out
}

fn tagged(tag: &str, num: u64) -> (r: String)
    ensures
        r@ == tag@ + encode(num),
{
    let mut out = String::from_str(tag);
    let digits = u64_to_hash(num);
    out.append(digits.as_str());
    out
}

/// The content hash for a digest of a module's canonical content.
pub fn content_hash(digest: u64) -> (r: AbsHash)
    ensures
        r@ == content_hash_spec(digest),
{
    proof {
        reveal_strlit("osha_1");
        assert("osha_1"@ =~= content_tag());
    }
    AbsHash(tagged("osha_1", digest))
}

/// The effective hash for a digest of a content hash and its dependencies.
pub fn effective_hash(digest: u64) -> (r: ImplHash)
    ensures
        r@ == effective_hash_spec(digest),
{
    proof {
        reveal_strlit("oshi_1");
        assert("oshi_1"@ =~= effective_tag());
    }
    ImplHash(tagged("oshi_1", digest))
}

/// The content hash of a parsed module.
pub fn program_hash(program: &Program) -> (r: AbsHash)
    ensures
        r@ == content_hash_spec(program_digest_of(*program)),
{
    let d = program_digest(program);
    content_hash(d)
}

/// The effective hash of a module with content hash `abs_hash` whose
/// dependencies have the keys and effective hashes in `deps`, listed by
/// ascending key: a set of dependencies is hashed in one order only.
pub fn program_impl_hash(abs_hash: &AbsHash, deps: &Vec<(Mangled, ImplHash)>) -> (r: ImplHash)
    requires
        keys_ascending(pair_keys(pairs_view(deps@))),
    ensures
        r@ == program_impl_hash_spec(abs_hash@, pairs_view(deps@)),
{
    let mut parts: Vec<String> = Vec::new();
    parts.push(abs_hash.0.clone());
    let mut j: usize = 0;
    while j < deps.len()
        invariant
            j <= deps@.len(),
            strings_view(parts@) == effective_parts(abs_hash@, pairs_view(deps@).subrange(0, j as int)),
        decreases deps.len() - j,
    {
        let ghost before = parts@;
        parts.push(deps[j].0.0.clone());
        parts.push(deps[j].1.0.clone());
        proof {
            let pv = pairs_view(deps@);
            assert(pv.subrange(0, j + 1).drop_last() =~= pv.subrange(0, j as int));
            assert(strings_view(parts@) =~= strings_view(before) + seq![deps@[j as int].0@, deps@[j as int].1@]);
        }
        j = j + 1;
    }
    proof {
        assert(pairs_view(deps@).subrange(0, deps@.len() as int) =~= pairs_view(deps@));
    }
    let d = digest_strings(&parts);
    effective_hash(d)
}

/// The digest shared by both hashes of an external package.
pub open spec fn dependency_digest(name: Seq<char>, version: Seq<char>) -> u64 {
    sip_digest(seq![name, version])
}

/// Content hash and effective hash of an external package, both derived from
/// its name and version.
pub fn depencency_hash(name: &str, version: &str) -> (r: (AbsHash, ImplHash))
    ensures
        r.0@ == content_hash_spec(dependency_digest(name@, version@)),
        r.1@ == effective_hash_spec(dependency_digest(name@, version@)),
{
    let mut parts: Vec<String> = Vec::new();
    parts.push(String::from_str(name));
    parts.push(String::from_str(version));
    proof {
        assert(strings_view(parts@) =~= seq![name@, version@]);
    }
    let d = digest_strings(&parts);
    (content_hash(d), effective_hash(d))
}

/// Position of a symbol in the alphabet.
pub open spec fn symbol_value(c: char) -> int {
    if c == '0' {
        0
    } else if c == '1' {
        1
    } else if c == '2' {
        2
    } else if c == '3' {
        3
    } else if c == '4' {
        4
    } else if c == '5' {
        5
    } else if c == '6' {
        6
    } else if c == '7' {
        7
    } else if c == '8' {
        8
    } else if c == '9' {
        9
    } else if c == 'a' {
        10
    } else if c == 'b' {
        11
    } else if c == 'c' {
        12
    } else if c == 'd' {
        13
    } else if c == 'e' {
        14
    } else if c == 'f' {
        15
    } else if c == 'g' {
        16
    } else if c == 'h' {
        17
    } else if c == 'i' {
        18
    } else if c == 'j' {
        19
    } else if c == 'k' {
        20
    } else if c == 'l' {
        21
    } else if c == 'm' {
        22
    } else if c == 'n' {
        23
    } else if c == 'o' {
        24
    } else if c == 'p' {
        25
    } else if c == 'q' {
        26
    } else if c == 'r' {
        27
    } else if c == 's' {
        28
    } else if c == 't' {
        29
    } else if c == 'u' {
        30
    } else if c == 'v' {
        31
    } else if c == 'w' {
        32
    } else if c == 'x' {
        33
    } else if c == 'y' {
        34
    } else if c == 'z' {
        35
    } else if c == 'A' {
        36
    } else if c == 'B' {
        37
    } else if c == 'C' {
        38
    } else if c == 'D' {
        39
    } else if c == 'E' {
        40
    } else if c == 'F' {
        41
    } else if c == 'G' {
        42
    } else if c == 'H' {
        43
    } else if c == 'I' {
        44
    } else if c == 'J' {
        45
    } else if c == 'K' {
        46
    } else if c == 'L' {
        47
    } else if c == 'M' {
        48
    } else if c == 'N' {
        49
    } else if c == 'O' {
        50
    } else if c == 'P' {
        51
    } else if c == 'Q' {
        52
    } else if c == 'R' {
        53
    } else if c == 'S' {
        54
    } else if c == 'T' {
        55
    } else if c == 'U' {
        56
    } else if c == 'V' {
        57
    } else if c == 'W' {
        58
    } else if c == 'X' {
        59
    } else if c == 'Y' {
        60
    } else {
        61
    }
}

proof fn lemma_symbol_value(i: int)
    requires
        0 <= i < 62,
    ensures
        symbol_value(alphabet()[i]) == i,
{
    if i == 0 {
        assert(alphabet()[0] == '0');
    } else if i == 1 {
        assert(alphabet()[1] == '1');
    } else if i == 2 {
        assert(alphabet()[2] == '2');
    } else if i == 3 {
        assert(alphabet()[3] == '3');
    } else if i == 4 {
        assert(alphabet()[4] == '4');
    } else if i == 5 {
        assert(alphabet()[5] == '5');
    } else if i == 6 {
        assert(alphabet()[6] == '6');
    } else if i == 7 {
        assert(alphabet()[7] == '7');
    } else if i == 8 {
        assert(alphabet()[8] == '8');
    } else if i == 9 {
        assert(alphabet()[9] == '9');
    } else if i == 10 {
        assert(alphabet()[10] == 'a');
    } else if i == 11 {
        assert(alphabet()[11] == 'b');
    } else if i == 12 {
        assert(alphabet()[12] == 'c');
    } else if i == 13 {
        assert(alphabet()[13] == 'd');
    } else if i == 14 {
        assert(alphabet()[14] == 'e');
    } else if i == 15 {
        assert(alphabet()[15] == 'f');
    } else if i == 16 {
        assert(alphabet()[16] == 'g');
    } else if i == 17 {
        assert(alphabet()[17] == 'h');
    } else if i == 18 {
        assert(alphabet()[18] == 'i');
    } else if i == 19 {
        assert(alphabet()[19] == 'j');
    } else if i == 20 {
        assert(alphabet()[20] == 'k');
    } else if i == 21 {
        assert(alphabet()[21] == 'l');
    } else if i == 22 {
        assert(alphabet()[22] == 'm');
    } else if i == 23 {
        assert(alphabet()[23] == 'n');
    } else if i == 24 {
        assert(alphabet()[24] == 'o');
    } else if i == 25 {
        assert(alphabet()[25] == 'p');
    } else if i == 26 {
        assert(alphabet()[26] == 'q');
    } else if i == 27 {
        assert(alphabet()[27] == 'r');
    } else if i == 28 {
        assert(alphabet()[28] == 's');
    } else if i == 29 {
        assert(alphabet()[29] == 't');
    } else if i == 30 {
        assert(alphabet()[30] == 'u');
    } else if i == 31 {
        assert(alphabet()[31] == 'v');
    } else if i == 32 {
        assert(alphabet()[32] == 'w');
    } else if i == 33 {
        assert(alphabet()[33] == 'x');
    } else if i == 34 {
        assert(alphabet()[34] == 'y');
    } else if i == 35 {
        assert(alphabet()[35] == 'z');
    } else if i == 36 {
        assert(alphabet()[36] == 'A');
    } else if i == 37 {
        assert(alphabet()[37] == 'B');
    } else if i == 38 {
        assert(alphabet()[38] == 'C');
    } else if i == 39 {
        assert(alphabet()[39] == 'D');
    } else if i == 40 {
        assert(alphabet()[40] == 'E');
    } else if i == 41 {
        assert(alphabet()[41] == 'F');
    } else if i == 42 {
        assert(alphabet()[42] == 'G');
    } else if i == 43 {
        assert(alphabet()[43] == 'H');
    } else if i == 44 {
        assert(alphabet()[44] == 'I');
    } else if i == 45 {
        assert(alphabet()[45] == 'J');
    } else if i == 46 {
        assert(alphabet()[46] == 'K');
    } else if i == 47 {
        assert(alphabet()[47] == 'L');
    } else if i == 48 {
        assert(alphabet()[48] == 'M');
    } else if i == 49 {
        assert(alphabet()[49] == 'N');
    } else if i == 50 {
        assert(alphabet()[50] == 'O');
    } else if i == 51 {
        assert(alphabet()[51] == 'P');
    } else if i == 52 {
        assert(alphabet()[52] == 'Q');
    } else if i == 53 {
        assert(alphabet()[53] == 'R');
    } else if i == 54 {
        assert(alphabet()[54] == 'S');
    } else if i == 55 {
        assert(alphabet()[55] == 'T');
    } else if i == 56 {
        assert(alphabet()[56] == 'U');
    } else if i == 57 {
        assert(alphabet()[57] == 'V');
    } else if i == 58 {
        assert(alphabet()[58] == 'W');
    } else if i == 59 {
        assert(alphabet()[59] == 'X');
    } else if i == 60 {
        assert(alphabet()[60] == 'Y');
    } else if i == 61 {
        assert(alphabet()[61] == 'Z');
    }
}

/// The inverse of `MULT` modulo 2^64.
pub const MULT_INV: u64 = 1285251701416753393;

proof fn lemma_mul_undo(x: u64)
    ensures
        (x.wrapping_mul(MULT) as int * MULT_INV as int) % 0x1_0000_0000_0000_0000int == x as int,
{
    let r = 0x1_0000_0000_0000_0000int;
    let m = MULT as int;
    let inv = MULT_INV as int;
    let k = 979989073803421168int;
    let xi = x as int;
    assert(x.wrapping_mul(MULT) as int == (xi * m) % r);
    lemma_mul_mod_noop_left(xi * m, inv, r);
    assert(m * inv == 1 + k * r);
    assert((xi * m) * inv == r * (xi * k) + xi) by (nonlinear_arith)
        requires
            m * inv == 1 + k * r,
    ;
    lemma_mod_multiples_vanish(xi * k, xi, r);
    lemma_small_mod(x as nat, r as nat);
}

proof fn lemma_mul_injective(a: u64, b: u64)
    requires
        a.wrapping_mul(MULT) == b.wrapping_mul(MULT),
    ensures
        a == b,
{
    lemma_mul_undo(a);
    lemma_mul_undo(b);
}

/// Different digests scramble to different values.
pub proof fn lemma_scramble_injective(a: u64, b: u64)
    requires
        scramble(a) == scramble(b),
    ensures
        a == b,
{
    let a0 = a.wrapping_mul(MULT).wrapping_add(1);
    let b0 = b.wrapping_mul(MULT).wrapping_add(1);
    let a1 = a0 ^ (a0 >> 30u64);
    let b1 = b0 ^ (b0 >> 30u64);
    let a2 = a1.wrapping_mul(MULT);
    let b2 = b1.wrapping_mul(MULT);
    let a3 = a2 ^ (a2 >> 27u64);
    let b3 = b2 ^ (b2 >> 27u64);
    let a4 = a3.wrapping_mul(MULT);
    let b4 = b3.wrapping_mul(MULT);
    let a5 = a4 ^ (a4 >> 31u64);
    let b5 = b4 ^ (b4 >> 31u64);
    assert(a5 ^ 0x7edd869db2c3af1fu64 == b5 ^ 0x7edd869db2c3af1fu64);
    assert(a5 == b5) by (bit_vector)
        requires
            a5 ^ 0x7edd869db2c3af1fu64 == b5 ^ 0x7edd869db2c3af1fu64,
    ;
    assert(a4 == b4) by (bit_vector)
        requires
            a4 ^ (a4 >> 31u64) == b4 ^ (b4 >> 31u64),
    ;
    lemma_mul_injective(a3, b3);
    assert(a2 == b2) by (bit_vector)
        requires
            a2 ^ (a2 >> 27u64) == b2 ^ (b2 >> 27u64),
    ;
    lemma_mul_injective(a1, b1);
    assert(a0 == b0) by (bit_vector)
        requires
            a0 ^ (a0 >> 30u64) == b0 ^ (b0 >> 30u64),
    ;
    lemma_mul_injective(a, b);
}

/// Different values below 2^64 have different eleven-symbol encodings.
pub proof fn lemma_base62_injective(a: nat, b: nat)
    requires
        a < 0x1_0000_0000_0000_0000,
        b < 0x1_0000_0000_0000_0000,
        base62(a) == base62(b),
    ensures
        a == b,
{
    assert forall|j: int| 0 <= j < 11 implies digit(a, j) == digit(b, j) by {
        assert(base62(a)[j] == base62(b)[j]);
        assert(base62(a)[j] == alphabet()[digit(a, j) as int]);
        assert(base62(b)[j] == alphabet()[digit(b, j) as int]);
        lemma_symbol_value(digit(a, j) as int);
        lemma_symbol_value(digit(b, j) as int);
    }
    reveal_with_fuel(pow62, 11);
    let top = pow62(10);
    assert(top == 839299365868340224);
    assert(a / top < 62) by (nonlinear_arith)
        requires
            a < 0x1_0000_0000_0000_0000,
            top == 839299365868340224,
    ;
    assert(b / top < 62) by (nonlinear_arith)
        requires
            b < 0x1_0000_0000_0000_0000,
            top == 839299365868340224,
    ;
    lemma_small_mod(a / top, 62);
    lemma_small_mod(b / top, 62);
    assert(digit(a, 0) == a / top);
    assert(digit(b, 0) == b / top);
    lemma_quotients_equal(a, b, 0);
}

/// Equal leading quotients and equal later digits make equal numbers.
proof fn lemma_quotients_equal(a: nat, b: nat, j: int)
    requires
        0 <= j <= 10,
        a / pow62((10 - j) as nat) == b / pow62((10 - j) as nat),
        forall|i: int| 0 <= i < 11 ==> digit(a, i) == digit(b, i),
    ensures
        a == b,
    decreases 10 - j,
{
    if j == 10 {
        assert(pow62(0) == 1);
        assert(a / pow62((10 - j) as nat) == a / 1);
        assert(b / pow62((10 - j) as nat) == b / 1);
    } else {
        let w = pow62((9 - j) as nat);
        lemma_pow62_pos((9 - j) as nat);
        assert(pow62((10 - j) as nat) == 62 * w);
        lemma_div_denominator(a as int, w as int, 62);
        lemma_div_denominator(b as int, w as int, 62);
        assert(w * 62 == 62 * w);
        lemma_fundamental_div_mod((a / w) as int, 62);
        lemma_fundamental_div_mod((b / w) as int, 62);
        assert(digit(a, j + 1) == (a / w) % 62);
        assert(digit(b, j + 1) == (b / w) % 62);
        lemma_quotients_equal(a, b, j + 1);
    }
}

/// Different digests have different encodings.
pub proof fn lemma_encode_injective(a: u64, b: u64)
    requires
        encode(a) == encode(b),
    ensures
        a == b,
{
    lemma_base62_injective(scramble(a) as nat, scramble(b) as nat);
    lemma_scramble_injective(a, b);
}

/// Content hashes are equal exactly when their digests are.
pub proof fn lemma_content_hash_determined(d1: u64, d2: u64)
    ensures
        (content_hash_spec(d1) == content_hash_spec(d2)) == (d1 == d2),
{
    if content_hash_spec(d1) == content_hash_spec(d2) {
        assert(content_hash_spec(d1).subrange(6, 17) =~= encode(d1));
        assert(content_hash_spec(d2).subrange(6, 17) =~= encode(d2));
        lemma_encode_injective(d1, d2);
    }
}

/// A content hash never equals an effective hash.
pub proof fn lemma_hash_kinds_distinct(d1: u64, d2: u64)
    ensures
        content_hash_spec(d1) != effective_hash_spec(d2),
{
    assert(content_hash_spec(d1)[3] == 'a');
    assert(effective_hash_spec(d2)[3] == 'i');
}

/// For a module with one dependency `k`, two effective hashes `h1` and `h2`
/// of that dependency give two effective hashes of the module, unless the
/// 64-bit digests of the two inputs collide.
pub proof fn lemma_dependency_sensitivity(abs: Seq<char>, k: Seq<char>, h1: Seq<char>, h2: Seq<char>)
    requires
        sip_digest(effective_parts(abs, seq![(k, h1)])) != sip_digest(effective_parts(abs, seq![(k, h2)])),
    ensures
        program_impl_hash_spec(abs, seq![(k, h1)]) != program_impl_hash_spec(abs, seq![(k, h2)]),
{
    let d1 = sip_digest(effective_parts(abs, seq![(k, h1)]));
    let d2 = sip_digest(effective_parts(abs, seq![(k, h2)]));
    if effective_hash_spec(d1) == effective_hash_spec(d2) {
        assert(effective_hash_spec(d1).subrange(6, 17) =~= encode(d1));
        assert(effective_hash_spec(d2).subrange(6, 17) =~= encode(d2));
        lemma_encode_injective(d1, d2);
    }
}

} // verus!
