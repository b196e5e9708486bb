//! Line codec for journal entries.
//!
//! One entry per line. An add/modify line is
//! `<op> sha512 <128 lowercase hex chars> <modified epoch seconds> <path>`;
//! a delete line is `D <path>`. The path is the final field and runs to the
//! end of the line, so it may itself contain spaces; it must not contain a
//! newline. The codec is pure: it never touches the filesystem.

use vstd::prelude::*;
use vstd::string::StrSliceExecFns;
use vstd::string::StringExecFns;

verus! {

/// The digest algorithm a journal entry declares. A single 512-bit scheme is
/// supported today; the field exists so that the format names its algorithm.
#[derive(Clone, Copy)]
pub enum HashType {
    Sha512,
}

/// Failure to parse a journal line.
pub enum DecodeError {
    MalformedRecord,
}

/// A single journal event, as carried by one line of the log.
pub enum JournalEntry {
    /// Records the current digest and modification time of a path.
    /// `modify` is true for a path already present in the snapshot (`M`),
    /// false for a newly added one (`A`).
    Upsert { modify: bool, hash_type: HashType, digest: Vec<u8>, modified: u64, path: String },
    /// Records that a path has disappeared.
    Delete { path: String },
}

/// Number of bytes in a digest of the supported algorithm.
pub const DIGEST_BYTES: usize = 64;

// ---------------------------------------------------------------------------
// Character classes and digit values
// ---------------------------------------------------------------------------

pub open spec fn is_digit_char(c: char) -> bool {
    c == '0' || c == '1' || c == '2' || c == '3' || c == '4' || c == '5' || c == '6' || c == '7'
        || c == '8' || c == '9'
}

pub open spec fn digit_val(c: char) -> u8 {
    if c == '0' { 0 } else if c == '1' { 1 } else if c == '2' { 2 } else if c == '3' { 3 }
    else if c == '4' { 4 } else if c == '5' { 5 } else if c == '6' { 6 } else if c == '7' { 7 }
    else if c == '8' { 8 } else { 9 }
}

pub open spec fn digit_char_of(d: nat) -> char {
    if d == 0 { '0' } else if d == 1 { '1' } else if d == 2 { '2' } else if d == 3 { '3' }
    else if d == 4 { '4' } else if d == 5 { '5' } else if d == 6 { '6' } else if d == 7 { '7' }
    else if d == 8 { '8' } else { '9' }
}

pub open spec fn is_hex_char(c: char) -> bool {
    is_digit_char(c) || c == 'a' || c == 'b' || c == 'c' || c == 'd' || c == 'e' || c == 'f'
}

pub open spec fn hex_val(c: char) -> u8 {
    if is_digit_char(c) { digit_val(c) } else if c == 'a' { 10 } else if c == 'b' { 11 }
    else if c == 'c' { 12 } else if c == 'd' { 13 } else if c == 'e' { 14 } else { 15 }
}

/// The hex character for a nibble value below 16.
pub open spec fn hex_char_of(d: u8) -> char {
    if d == 0 { '0' } else if d == 1 { '1' } else if d == 2 { '2' } else if d == 3 { '3' }
    else if d == 4 { '4' } else if d == 5 { '5' } else if d == 6 { '6' } else if d == 7 { '7' }
    else if d == 8 { '8' } else if d == 9 { '9' } else if d == 10 { 'a' } else if d == 11 { 'b' }
    else if d == 12 { 'c' } else if d == 13 { 'd' } else if d == 14 { 'e' } else { 'f' }
}

// ---------------------------------------------------------------------------
// Hex encoding of digests
// ---------------------------------------------------------------------------

/// Lowercase hex encoding of a byte sequence: two characters per byte,
/// high nibble first.
pub open spec fn hex_encode(bytes: Seq<u8>) -> Seq<char>
    decreases bytes.len(),
{
    if bytes.len() == 0 {
        Seq::empty()
    } else {
        hex_encode(bytes.drop_last()) + seq![
            hex_char_of(bytes.last() / 16),
            hex_char_of(bytes.last() % 16),
        ]
    }
}

/// The bytes denoted by an even-length sequence of hex characters.
pub open spec fn hex_decode(s: Seq<char>) -> Seq<u8>
    decreases s.len(),
{
    if s.len() < 2 {
        Seq::empty()
    } else {
        hex_decode(s.drop_last().drop_last()).push(
            (hex_val(s[s.len() - 2]) * 16 + hex_val(s[s.len() - 1])) as u8,
        )
    }
}

pub proof fn lemma_hex_encode_len(bytes: Seq<u8>)
    ensures
        hex_encode(bytes).len() == 2 * bytes.len(),
    decreases bytes.len(),
{
    if bytes.len() > 0 {
        lemma_hex_encode_len(bytes.drop_last());
    }
}

pub proof fn lemma_hex_decode_len(s: Seq<char>)
    requires
        s.len() % 2 == 0,
    ensures
        hex_decode(s).len() == s.len() / 2,
    decreases s.len(),
{
    if s.len() >= 2 {
        lemma_hex_decode_len(s.drop_last().drop_last());
    }
}

/// Every character that the hex encoding emits is a lowercase hex character.
pub proof fn lemma_hex_encode_chars(bytes: Seq<u8>)
    ensures
        forall|i: int| 0 <= i < hex_encode(bytes).len() ==> is_hex_char(#[trigger] hex_encode(bytes)[i]),
    decreases bytes.len(),
{
    if bytes.len() > 0 {
        lemma_hex_encode_chars(bytes.drop_last());
        lemma_hex_encode_len(bytes.drop_last());
    }
}

/// Decoding inverts encoding: hex round trip.
pub proof fn lemma_hex_round_trip(bytes: Seq<u8>)
    ensures
        hex_decode(hex_encode(bytes)) == bytes,
    decreases bytes.len(),
{
    if bytes.len() == 0 {
        assert(hex_decode(hex_encode(bytes)) =~= bytes);
    } else {
        lemma_hex_round_trip(bytes.drop_last());
        lemma_hex_encode_len(bytes.drop_last());
        let s = hex_encode(bytes);
        let b = bytes.last();
        assert(s.drop_last().drop_last() =~= hex_encode(bytes.drop_last()));
        assert(s[s.len() - 2] == hex_char_of(b / 16));
        assert(s[s.len() - 1] == hex_char_of(b % 16));
        assert(hex_val(hex_char_of(b / 16)) == b / 16);
        assert(hex_val(hex_char_of(b % 16)) == b % 16);
        assert(hex_decode(s) =~= bytes);
    }
}

// ---------------------------------------------------------------------------
// Decimal encoding of the modified time
// ---------------------------------------------------------------------------

/// The value denoted by a sequence of decimal digit characters.
pub open spec fn dec_val(s: Seq<char>) -> nat
    decreases s.len(),
{
    if s.len() == 0 {
        0
    } else {
        dec_val(s.drop_last()) * 10 + digit_val(s.last()) as nat
    }
}

/// The canonical decimal representation of a value (no leading zeros,
/// except that zero itself is "0").
pub open spec fn dec_repr(n: nat) -> Seq<char>
    decreases n,
{
    if n < 10 {
        seq![digit_char_of(n)]
    } else {
        dec_repr(n / 10).push(digit_char_of(n % 10))
    }
}

pub proof fn lemma_dec_repr_digits(n: nat)
    ensures
        dec_repr(n).len() >= 1,
        forall|i: int| 0 <= i < dec_repr(n).len() ==> is_digit_char(#[trigger] dec_repr(n)[i]),
    decreases n,
{
    if n >= 10 {
        lemma_dec_repr_digits(n / 10);
    }
}

/// Reading back the canonical decimal representation yields the value.
pub proof fn lemma_dec_round_trip(n: nat)
    ensures
        dec_val(dec_repr(n)) == n,
    decreases n,
{
    if n < 10 {
        assert(dec_repr(n).drop_last() =~= Seq::<char>::empty());
        assert(dec_val(Seq::<char>::empty()) == 0);
        assert(dec_repr(n).last() == digit_char_of(n));
        assert(digit_val(digit_char_of(n)) as nat == n);
    } else {
        lemma_dec_round_trip(n / 10);
        assert(dec_repr(n).drop_last() =~= dec_repr(n / 10));
        assert(dec_repr(n).last() == digit_char_of(n % 10));
        assert(digit_val(digit_char_of(n % 10)) as nat == n % 10);
        assert(dec_val(dec_repr(n)) == (n / 10) * 10 + n % 10);
        assert((n / 10) * 10 + n % 10 == n);
    }
}

/// A digit string's value only grows as more digits are appended.
pub proof fn lemma_dec_val_prefix_le(s: Seq<char>, k: int)
    requires
        0 <= k <= s.len(),
    ensures
        dec_val(s.take(k)) <= dec_val(s),
    decreases s.len(),
{
    if k < s.len() {
        lemma_dec_val_prefix_le(s.drop_last(), k);
        assert(s.drop_last().take(k) =~= s.take(k));
        assert(dec_val(s) == dec_val(s.drop_last()) * 10 + digit_val(s.last()));
        assert(dec_val(s.drop_last()) <= dec_val(s.drop_last()) * 10) by (nonlinear_arith);
    } else {
        assert(s.take(k) =~= s);
    }
}

// ---------------------------------------------------------------------------
// The line grammar
// ---------------------------------------------------------------------------

/// View of the algorithm tag literal.
pub open spec fn alg_tag() -> Seq<char> {
    seq!['s', 'h', 'a', '5', '1', '2']
}

/// A syntactically valid delete line: `D <path>`.
pub open spec fn delete_line_valid(s: Seq<char>) -> bool {
    s.len() >= 2 && s[0] == 'D' && s[1] == ' '
}

pub open spec fn delete_path_of(s: Seq<char>) -> Seq<char> {
    s.subrange(2, s.len() as int)
}

/// Position `j` separates the modified-time digits from the path: every
/// character from 138 up to `j` is a digit (at least one), and `s[j]` is the
/// space before the path.
pub open spec fn upsert_sep_at(s: Seq<char>, j: int) -> bool {
    139 <= j < s.len() && s[j] == ' ' && (forall|k: int|
        138 <= k < j ==> is_digit_char(#[trigger] s[k]))
}

pub open spec fn upsert_sep(s: Seq<char>) -> int {
    choose|j: int| upsert_sep_at(s, j)
}

/// The digit run ends at exactly one place.
pub proof fn lemma_upsert_sep_unique(s: Seq<char>, j1: int, j2: int)
    requires
        upsert_sep_at(s, j1),
        upsert_sep_at(s, j2),
    ensures
        j1 == j2,
{
    if j1 < j2 {
        assert(is_digit_char(s[j1]));
    }
    if j2 < j1 {
        assert(is_digit_char(s[j2]));
    }
}

/// The fixed-position part of an add/modify line:
/// opcode, space, algorithm tag, space, 128 hex characters, space.
pub open spec fn upsert_header_valid(s: Seq<char>) -> bool {
    &&& s.len() >= 140
    &&& (s[0] == 'A' || s[0] == 'M')
    &&& s[1] == ' '
    &&& s.subrange(2, 8) == alg_tag()
    &&& s[8] == ' '
    &&& (forall|i: int| 9 <= i < 137 ==> is_hex_char(#[trigger] s[i]))
    &&& s[137] == ' '
}

/// A syntactically valid add/modify line, including the demand that the
/// modified-time digits denote a value that fits in a `u64`.
pub open spec fn upsert_line_valid(s: Seq<char>) -> bool {
    &&& upsert_header_valid(s)
    &&& (exists|j: int| upsert_sep_at(s, j))
    &&& dec_val(s.subrange(138, upsert_sep(s))) <= u64::MAX
}

pub open spec fn upsert_is_modify(s: Seq<char>) -> bool {
    s[0] == 'M'
}

pub open spec fn upsert_digest_of(s: Seq<char>) -> Seq<u8> {
    hex_decode(s.subrange(9, 137))
}

pub open spec fn upsert_modified_of(s: Seq<char>) -> nat {
    dec_val(s.subrange(138, upsert_sep(s)))
}

pub open spec fn upsert_path_of(s: Seq<char>) -> Seq<char> {
    s.subrange(upsert_sep(s) + 1, s.len() as int)
}

/// A line that the journal replay accepts.
pub open spec fn line_valid(s: Seq<char>) -> bool {
    delete_line_valid(s) || upsert_line_valid(s)
}

/// What a successful decode of line `s` must hand back.
pub open spec fn decodes_to(s: Seq<char>, e: JournalEntry) -> bool {
    if delete_line_valid(s) {
        match e {
            JournalEntry::Delete { path } => path@ == delete_path_of(s),
            _ => false,
        }
    } else {
        match e {
            JournalEntry::Upsert { modify, hash_type, digest, modified, path } => {
                &&& modify == upsert_is_modify(s)
                &&& digest@ == upsert_digest_of(s)
                &&& modified as nat == upsert_modified_of(s)
                &&& path@ == upsert_path_of(s)
            },
            _ => false,
        }
    }
}

// ---------------------------------------------------------------------------
// Entries and their encodings
// ---------------------------------------------------------------------------

/// An entry the codec can write: the digest has the algorithm's exact width
/// and the path, being the final field of a single line, holds no newline.
pub open spec fn entry_valid(e: JournalEntry) -> bool {
    match e {
        JournalEntry::Upsert { digest, path, .. } => digest@.len() == DIGEST_BYTES
            && !path@.contains('\n'),
        JournalEntry::Delete { path } => !path@.contains('\n'),
    }
}

pub open spec fn delete_line_spec(path: Seq<char>) -> Seq<char> {
    seq!['D', ' '] + path
}

pub open spec fn upsert_line_spec(modify: bool, digest: Seq<u8>, modified: u64, path: Seq<char>) -> Seq<char> {
    seq![if modify { 'M' } else { 'A' }, ' ', 's', 'h', 'a', '5', '1', '2', ' ']
        + hex_encode(digest) + seq![' '] + dec_repr(modified as nat) + seq![' '] + path
}

pub open spec fn encode_spec(e: JournalEntry) -> Seq<char> {
    match e {
        JournalEntry::Delete { path } => delete_line_spec(path@),
        JournalEntry::Upsert { modify, digest, modified, path, .. } => upsert_line_spec(
            modify,
            digest@,
            modified,
            path@,
        ),
    }
}

// ---------------------------------------------------------------------------
// Executable encoding
// ---------------------------------------------------------------------------

/// The one-character string for a decimal digit value.
fn digit_str(d: u64) -> (s: &'static str)
    requires
        d < 10,
    ensures
        s@ == seq![digit_char_of(d as nat)],
{
    proof {
        reveal_strlit("0");
        reveal_strlit("1");
        reveal_strlit("2");
        reveal_strlit("3");
        reveal_strlit("4");
        reveal_strlit("5");
        reveal_strlit("6");
        reveal_strlit("7");
        reveal_strlit("8");
        reveal_strlit("9");
    }
    let s = if d == 0 { "0" } else if d == 1 { "1" } else if d == 2 { "2" } else if d == 3 { "3" }
    else if d == 4 { "4" } else if d == 5 { "5" } else if d == 6 { "6" } else if d == 7 { "7" }
    else if d == 8 { "8" } else { "9" };
    proof {
        assert(s@ =~= seq![digit_char_of(d as nat)]);
    }
    s
}

/// The one-character string for a nibble value.
fn hex_char_str(d: u8) -> (s: &'static str)
    requires
        d < 16,
    ensures
        s@ == seq![hex_char_of(d)],
{
    if d < 10 {
        let s = digit_str(d as u64);
        proof {
            assert(digit_char_of(d as nat) == hex_char_of(d));
        }
        s
    } else {
        proof {
            reveal_strlit("a");
            reveal_strlit("b");
            reveal_strlit("c");
            reveal_strlit("d");
            reveal_strlit("e");
            reveal_strlit("f");
        }
        let s = if d == 10 { "a" } else if d == 11 { "b" } else if d == 12 { "c" }
        else if d == 13 { "d" } else if d == 14 { "e" } else { "f" };
        proof {
            assert(s@ =~= seq![hex_char_of(d)]);
        }
        s
    }
}

/// Lowercase hex rendering of a digest.
pub fn format_hash(hash: &[u8]) -> (s: String)
    ensures
        s@ == hex_encode(hash@),
{
    let mut s = String::new();
    let mut i: usize = 0;
    while i < hash.len()
        invariant
            i <= hash@.len(),
            s@ == hex_encode(hash@.take(i as int)),
        decreases hash@.len() - i,
    {
        let b = hash[i];
        s.append(hex_char_str(b / 16));
        s.append(hex_char_str(b % 16));
        proof {
            assert(hash@.take(i + 1 as int).drop_last() =~= hash@.take(i as int));
            assert(hash@.take(i + 1 as int).last() == hash@[i as int]);
            assert(s@ =~= hex_encode(hash@.take(i + 1 as int)));
        }
        i = i + 1;
    }
    proof {
        assert(hash@.take(hash@.len() as int) =~= hash@);
    }
    s
}

/// Canonical decimal rendering of a 64-bit value.
pub fn u64_to_dec(n: u64) -> (s: String)
    ensures
        s@ == dec_repr(n as nat),
    decreases n,
{
    if n < 10 {
        digit_str(n).to_owned()
    } else {
        let mut s = u64_to_dec(n / 10);
        s.append(digit_str(n % 10));
        proof {
            assert((n / 10) as nat == n as nat / 10);
            assert((n % 10) as nat == n as nat % 10);
            assert(s@ =~= dec_repr(n as nat / 10).push(digit_char_of(n as nat % 10)));
        }
        s
    }
}

/// Render one entry as its journal line (without the trailing newline).
pub fn encode(entry: &JournalEntry) -> (line: String)
    requires
        entry_valid(*entry),
    ensures
        line@ == encode_spec(*entry),
{
    match entry {
        JournalEntry::Delete { path } => {
            let mut s = "D ".to_owned();
            proof {
                reveal_strlit("D ");
                assert("D "@ =~= seq!['D', ' ']);
            }
            s.append(path.as_str());
            proof {
                assert(s@ =~= delete_line_spec(path@));
            }
            s
        },
        JournalEntry::Upsert { modify, digest, modified, path, .. } => {
            let head = if *modify { "M sha512 " } else { "A sha512 " };
            proof {
                reveal_strlit("M sha512 ");
                reveal_strlit("A sha512 ");
                reveal_strlit(" ");
                assert(head@ =~= seq![
                    if *modify { 'M' } else { 'A' }, ' ', 's', 'h', 'a', '5', '1', '2', ' ',
                ]);
            }
            let mut s = head.to_owned();
            let hex = format_hash(digest.as_slice());
            s.append(hex.as_str());
            s.append(" ");
            let dec = u64_to_dec(*modified);
            s.append(dec.as_str());
            s.append(" ");
            s.append(path.as_str());
            proof {
                assert(s@ =~= upsert_line_spec(*modify, digest@, *modified, path@));
            }
            s
        },
    }
}

// ---------------------------------------------------------------------------
// The codec round trip
// ---------------------------------------------------------------------------

/// Digest encoding round trip: the line that `encode` produces for any
/// encodable entry is a valid journal line, and decoding it yields that very
/// entry back — field for field, including the digest bytes.
pub proof fn lemma_codec_round_trip(e: JournalEntry)
    requires
        entry_valid(e),
    ensures
        line_valid(encode_spec(e)),
        decodes_to(encode_spec(e), e),
{
    match e {
        JournalEntry::Delete { path } => {
            let s = encode_spec(e);
            assert(s.len() == 2 + path@.len());
            assert(delete_line_valid(s));
            assert(delete_path_of(s) =~= path@);
        },
        JournalEntry::Upsert { modify, hash_type, digest, modified, path } => {
            let s = encode_spec(e);
            let hex = hex_encode(digest@);
            let dec = dec_repr(modified as nat);
            lemma_hex_encode_len(digest@);
            lemma_hex_encode_chars(digest@);
            lemma_dec_repr_digits(modified as nat);
            let dl = dec.len() as int;
            // layout: [op ' ' s h a 5 1 2 ' '] ++ hex(128) ++ [' '] ++ dec ++ [' '] ++ path
            assert(s.len() == 9 + 128 + 1 + dl + 1 + path@.len());
            assert(s[0] == (if modify { 'M' } else { 'A' }));
            assert(s[1] == ' ');
            assert(s.subrange(2, 8) =~= alg_tag());
            assert(s[8] == ' ');
            assert forall|i: int| 9 <= i < 137 implies is_hex_char(#[trigger] s[i]) by {
                assert(s[i] == hex[i - 9]);
            }
            assert(s[137] == ' ');
            assert(upsert_header_valid(s));
            let j = 138 + dl;
            assert forall|k: int| 138 <= k < j implies is_digit_char(#[trigger] s[k]) by {
                assert(s[k] == dec[k - 138]);
            }
            assert(s[j] == ' ');
            assert(upsert_sep_at(s, j));
            lemma_upsert_sep_unique(s, j, upsert_sep(s));
            assert(upsert_sep(s) == j);
            assert(s.subrange(138, j) =~= dec);
            lemma_dec_round_trip(modified as nat);
            assert(upsert_modified_of(s) == modified as nat);
            assert(upsert_line_valid(s));
            assert(s.subrange(9, 137) =~= hex);
            lemma_hex_round_trip(digest@);
            assert(upsert_digest_of(s) == digest@);
            assert(upsert_path_of(s) =~= path@);
            assert(upsert_is_modify(s) == modify);
            assert(!delete_line_valid(s));
        },
    }
}

// ---------------------------------------------------------------------------
// Executable decoding
// ---------------------------------------------------------------------------

/// Exec check of a hex character, with its nibble value.
fn hex_val_exec(c: char) -> (r: Option<u8>)
    ensures
        r is Some <==> is_hex_char(c),
        r matches Some(d) ==> d == hex_val(c) && d < 16,
{
    if c == '0' { Some(0) } else if c == '1' { Some(1) } else if c == '2' { Some(2) }
    else if c == '3' { Some(3) } else if c == '4' { Some(4) } else if c == '5' { Some(5) }
    else if c == '6' { Some(6) } else if c == '7' { Some(7) } else if c == '8' { Some(8) }
    else if c == '9' { Some(9) } else if c == 'a' { Some(10) } else if c == 'b' { Some(11) }
    else if c == 'c' { Some(12) } else if c == 'd' { Some(13) } else if c == 'e' { Some(14) }
    else if c == 'f' { Some(15) } else { None }
}

/// Exec check of a decimal digit character, with its value.
fn digit_val_exec(c: char) -> (r: Option<u8>)
    ensures
        r is Some <==> is_digit_char(c),
        r matches Some(d) ==> d == digit_val(c) && d < 10,
{
    if c == '0' { Some(0) } else if c == '1' { Some(1) } else if c == '2' { Some(2) }
    else if c == '3' { Some(3) } else if c == '4' { Some(4) } else if c == '5' { Some(5) }
    else if c == '6' { Some(6) } else if c == '7' { Some(7) } else if c == '8' { Some(8) }
    else if c == '9' { Some(9) } else { None }
}

/// Parse one journal line. Succeeds exactly on the syntactically valid
/// lines, and then returns the entry the line denotes: op code, declared
/// algorithm, a digest of exactly the algorithm's width, the modified time,
/// and the path (the remainder of the line).
pub fn decode(line: &str) -> (r: Result<JournalEntry, DecodeError>)
    ensures
        r is Ok <==> line_valid(line@),
        (r matches Ok(e) ==> decodes_to(line@, e)),
{
    let n = line.unicode_len();
    if n < 2 {
        return Err(DecodeError::MalformedRecord);
    }
    let c0 = line.get_char(0);
    let c1 = line.get_char(1);
    if c1 != ' ' {
        return Err(DecodeError::MalformedRecord);
    }
    if c0 == 'D' {
        let path = line.substring_char(2, n).to_owned();
        proof {
            assert(delete_line_valid(line@));
            assert(path@ == delete_path_of(line@));
        }
        return Ok(JournalEntry::Delete { path });
    }
    if !(c0 == 'A' || c0 == 'M') {
        return Err(DecodeError::MalformedRecord);
    }
    if n < 140 {
        return Err(DecodeError::MalformedRecord);
    }
    // Fixed header: the algorithm tag and its surrounding spaces.
    if line.get_char(2) != 's' || line.get_char(3) != 'h' || line.get_char(4) != 'a'
        || line.get_char(5) != '5' || line.get_char(6) != '1' || line.get_char(7) != '2'
        || line.get_char(8) != ' ' {
        proof {
            assert(line@.subrange(2, 8)[0] == line@[2]);
            assert(line@.subrange(2, 8)[1] == line@[3]);
            assert(line@.subrange(2, 8)[2] == line@[4]);
            assert(line@.subrange(2, 8)[3] == line@[5]);
            assert(line@.subrange(2, 8)[4] == line@[6]);
            assert(line@.subrange(2, 8)[5] == line@[7]);
        }
        return Err(DecodeError::MalformedRecord);
    }
    proof {
        assert(line@.subrange(2, 8) =~= alg_tag());
    }
    // The digest: exactly 128 hex characters.
    let mut digest: Vec<u8> = Vec::new();
    let mut i: usize = 0;
    while i < 64
        invariant
            n == line@.len(),
            n >= 140,
            i <= 64,
            line@[0] != 'D',
            digest@ == hex_decode(line@.subrange(9, 9 + 2 * i)),
            forall|k: int| 9 <= k < 9 + 2 * i ==> is_hex_char(#[trigger] line@[k]),
        decreases 64 - i,
    {
        let hi = line.get_char(9 + 2 * i);
        let lo = line.get_char(9 + 2 * i + 1);
        let hv = match hex_val_exec(hi) {
            Some(v) => v,
            None => {
                return Err(DecodeError::MalformedRecord);
            },
        };
        let lv = match hex_val_exec(lo) {
            Some(v) => v,
            None => {
                return Err(DecodeError::MalformedRecord);
            },
        };
        digest.push(hv * 16 + lv);
        proof {
            let sub = line@.subrange(9, 9 + 2 * (i + 1));
            assert(sub.drop_last().drop_last() =~= line@.subrange(9, 9 + 2 * i));
            assert(sub[sub.len() - 2] == line@[9 + 2 * i]);
            assert(sub[sub.len() - 1] == line@[9 + 2 * i + 1]);
            assert(digest@ =~= hex_decode(sub));
        }
        i = i + 1;
    }
    if line.get_char(137) != ' ' {
        return Err(DecodeError::MalformedRecord);
    }
    // The modified time: a run of decimal digits ending at a space.
    let mut val: u64 = 0;
    let mut j: usize = 138;
    let mut found = false;
    while j < n && !found
        invariant
            n == line@.len(),
            n >= 140,
            138 <= j <= n,
            line@[0] != 'D',
            found ==> 139 <= j < n && line@[j as int] == ' ',
            forall|k: int| 138 <= k < j ==> is_digit_char(#[trigger] line@[k]),
            val as nat == dec_val(line@.subrange(138, j as int)),
        decreases n - j + (if found { 0int } else { 1int }),
    {
        let c = line.get_char(j);
        if c == ' ' {
            if j == 138 {
                proof {
                    assert forall|jj: int| !upsert_sep_at(line@, jj) by {
                        if upsert_sep_at(line@, jj) {
                            assert(is_digit_char(line@[138]));
                        }
                    }
                }
                return Err(DecodeError::MalformedRecord);
            }
            found = true;
        } else {
            let d = match digit_val_exec(c) {
                Some(d) => d,
                None => {
                    proof {
                        assert forall|jj: int| !upsert_sep_at(line@, jj) by {
                            if upsert_sep_at(line@, jj) {
                                if jj <= j {
                                    assert(is_digit_char(line@[jj]) || line@[jj as int] == ' ');
                                } else {
                                    assert(is_digit_char(line@[j as int]));
                                }
                            }
                        }
                    }
                    return Err(DecodeError::MalformedRecord);
                },
            };
            if val > (u64::MAX - d as u64) / 10 {
                proof {
                    let m = u64::MAX as nat;
                    let dd = d as nat;
                    // val * 10 + d exceeds u64::MAX:
                    assert((m - dd) == 10 * ((m - dd) / 10) + (m - dd) % 10) by (nonlinear_arith);
                    assert((m - dd) % 10 < 10) by (nonlinear_arith);
                    assert(val as nat >= (m - dd) / 10 + 1);
                    assert(val as nat * 10 >= ((m - dd) / 10 + 1) * 10) by (nonlinear_arith)
                        requires val as nat >= (m - dd) / 10 + 1;
                    assert(((m - dd) / 10 + 1) * 10 == 10 * ((m - dd) / 10) + 10) by (nonlinear_arith);
                    assert(val as nat * 10 + dd > m);
                    // so the full digit run denotes a value beyond u64::MAX
                    let sub1 = line@.subrange(138, j + 1 as int);
                    assert(sub1.drop_last() =~= line@.subrange(138, j as int));
                    assert(sub1.last() == line@[j as int]);
                    assert(dec_val(sub1) == val as nat * 10 + dd);
                    assert forall|jj: int| upsert_sep_at(line@, jj) implies
                        dec_val(line@.subrange(138, jj)) > u64::MAX as nat by {
                        assert(jj > j) by {
                            if jj <= j {
                                assert(is_digit_char(line@[jj]));
                            }
                        };
                        let subfull = line@.subrange(138, jj);
                        lemma_dec_val_prefix_le(subfull, j + 1 - 138);
                        assert(subfull.take(j + 1 - 138) =~= sub1);
                    }
                    if upsert_line_valid(line@) {
                        let js = upsert_sep(line@);
                        assert(upsert_sep_at(line@, js));
                    }
                }
                return Err(DecodeError::MalformedRecord);
            }
            val = val * 10 + d as u64;
            proof {
                let sub1 = line@.subrange(138, j + 1 as int);
                assert(sub1.drop_last() =~= line@.subrange(138, j as int));
                assert(sub1.last() == line@[j as int]);
            }
            j = j + 1;
        }
    }
    if !found {
        // Ran to the end of the line without a space after the digits.
        proof {
            assert forall|jj: int| !upsert_sep_at(line@, jj) by {
                if upsert_sep_at(line@, jj) {
                    assert(is_digit_char(line@[jj]));
                }
            }
        }
        return Err(DecodeError::MalformedRecord);
    }
    proof {
        assert(upsert_sep_at(line@, j as int));
        assert(upsert_header_valid(line@));
        lemma_upsert_sep_unique(line@, j as int, upsert_sep(line@));
        assert(upsert_line_valid(line@));
    }
    let path = line.substring_char(j + 1, n).to_owned();
    let modify = c0 == 'M';
    proof {
        assert(!delete_line_valid(line@));
        assert(digest@ == upsert_digest_of(line@));
        assert(val as nat == upsert_modified_of(line@));
        assert(path@ == upsert_path_of(line@));
    }
    Ok(JournalEntry::Upsert { modify, hash_type: HashType::Sha512, digest, modified: val, path })
}

} // verus!
