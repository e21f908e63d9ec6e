//! The node's start-up settings as text: the voter list, the seed-peer list
//! and plain numbers, parsed the way the standard library parses them.
//!
//! A list is split at commas; each item is trimmed of white space and empty
//! items are dropped. A number is what `str::parse` accepts for an unsigned
//! integer: an optional `+` and decimal digits, no larger than the type allows.

use vstd::prelude::*;
use vstd::string::StrSliceExecFns;

use crate::config::{RaftConfig, SeedPeer};
use crate::raft::types::NodeId;

verus! {

// ---------------------------------------------------------------------------
// Text model
// ---------------------------------------------------------------------------

/// The Unicode `White_Space` property, which `char::is_whitespace` tests.
pub open spec fn is_white_space(c: char) -> bool {
    let u = c as u32;
    ||| 0x09 <= u <= 0x0D
    ||| u == 0x20
    ||| u == 0x85
    ||| u == 0xA0
    ||| u == 0x1680
    ||| 0x2000 <= u <= 0x200A
    ||| u == 0x2028
    ||| u == 0x2029
    ||| u == 0x202F
    ||| u == 0x205F
    ||| u == 0x3000
}

/// `s` without its leading white space.
pub open spec fn trim_start(s: Seq<char>) -> Seq<char>
    decreases s.len(),
{
    if s.len() > 0 && is_white_space(s[0]) {
        trim_start(s.drop_first())
    } else {
        s
    }
}

/// `s` without its trailing white space.
pub open spec fn trim_end(s: Seq<char>) -> Seq<char>
    decreases s.len(),
{
    if s.len() > 0 && is_white_space(s.last()) {
        trim_end(s.drop_last())
    } else {
        s
    }
}

/// `s` without white space at either end, as `str::trim` gives it.
pub open spec fn trim(s: Seq<char>) -> Seq<char> {
    trim_end(trim_start(s))
}

/// The pieces of `s` between occurrences of `sep`, as `str::split` yields
/// them: always one more piece than there are separators.
pub open spec fn split(s: Seq<char>, sep: char) -> Seq<Seq<char>>
    decreases s.len(),
{
    if s.len() == 0 {
        seq![Seq::<char>::empty()]
    } else {
        let rest = split(s.drop_first(), sep);
        if s[0] == sep {
            seq![Seq::<char>::empty()] + rest
        } else {
            rest.update(0, seq![s[0]] + rest[0])
        }
    }
}

/// The pieces, trimmed, with the empty ones dropped.
pub open spec fn nonempty_trimmed(pieces: Seq<Seq<char>>) -> Seq<Seq<char>>
    decreases pieces.len(),
{
    if pieces.len() == 0 {
        Seq::empty()
    } else {
        let t = trim(pieces[0]);
        let rest = nonempty_trimmed(pieces.drop_first());
        if t.len() == 0 {
            rest
        } else {
            seq![t] + rest
        }
    }
}

/// The items of a comma-separated list.
pub open spec fn list_items_of(s: Seq<char>) -> Seq<Seq<char>> {
    nonempty_trimmed(split(s, ','))
}

/// The texts of a sequence of strings.
pub open spec fn texts(v: Seq<String>) -> Seq<Seq<char>> {
    v.map_values(|s: String| s@)
}

// ---------------------------------------------------------------------------
// Number model
// ---------------------------------------------------------------------------

/// Why a text is not a number (the kinds of `std::num::ParseIntError` that an
/// unsigned type can give).
#[derive(Debug, Clone, Copy, PartialEq, Eq, Structural)]
pub enum NumberError {
    /// The text is empty.
    Empty,
    /// A character is not a decimal digit (a lone `+` included).
    InvalidDigit,
    /// The value does not fit in the type.
    TooLarge,
}

impl NumberError {
    /// The text `ParseIntError` shows for this kind.
    pub fn message(&self) -> (s: String)
        ensures
            s@ == number_error_text(*self),
    {
        match self {
            NumberError::Empty => String::from_str("cannot parse integer from empty string"),
            NumberError::InvalidDigit => String::from_str("invalid digit found in string"),
            NumberError::TooLarge => String::from_str("number too large to fit in target type"),
        }
    }
}

pub open spec fn number_error_text(e: NumberError) -> Seq<char> {
    match e {
        NumberError::Empty => "cannot parse integer from empty string"@,
        NumberError::InvalidDigit => "invalid digit found in string"@,
        NumberError::TooLarge => "number too large to fit in target type"@,
    }
}

pub open spec fn is_digit(c: char) -> bool {
    48 <= c as u32 <= 57
}

pub open spec fn digit_value(c: char) -> nat {
    (c as u32 - 48) as nat
}

/// The value of the digits `d` read left to right, failing at the first
/// character that is not a digit or at the first prefix whose value
/// exceeds `max`.
pub open spec fn digits_value(d: Seq<char>, max: nat) -> Result<nat, NumberError>
    decreases d.len(),
{
    if d.len() == 0 {
        Ok(0)
    } else {
        match digits_value(d.drop_last(), max) {
            Err(e) => Err(e),
            Ok(v) => if !is_digit(d.last()) {
                Err(NumberError::InvalidDigit)
            } else if v * 10 + digit_value(d.last()) > max {
                Err(NumberError::TooLarge)
            } else {
                Ok(v * 10 + digit_value(d.last()))
            },
        }
    }
}

/// What `str::parse` gives for an unsigned type whose largest value is `max`.
pub open spec fn parse_unsigned(s: Seq<char>, max: nat) -> Result<nat, NumberError> {
    if s.len() == 0 {
        Err(NumberError::Empty)
    } else if s[0] == '+' {
        if s.len() == 1 {
            Err(NumberError::InvalidDigit)
        } else {
            digits_value(s.drop_first(), max)
        }
    } else {
        digits_value(s, max)
    }
}

// ---------------------------------------------------------------------------
// Lemmas
// ---------------------------------------------------------------------------

proof fn lemma_trim_start(x: Seq<char>, k: int)
    requires
        0 <= k <= x.len(),
        forall|j: int| 0 <= j < k ==> is_white_space(#[trigger] x[j]),
        k < x.len() ==> !is_white_space(x[k]),
    ensures
        trim_start(x) == x.skip(k),
    decreases k,
{
    if k == 0 {
        assert(x.skip(0) =~= x);
    } else {
        assert(is_white_space(x[0]));
        let y = x.drop_first();
        assert forall|j: int| 0 <= j < k - 1 implies is_white_space(#[trigger] y[j]) by {
            assert(y[j] == x[j + 1]);
        }
        lemma_trim_start(y, k - 1);
        assert(y.skip(k - 1) =~= x.skip(k));
    }
}

proof fn lemma_trim_end(y: Seq<char>, m: int)
    requires
        0 <= m <= y.len(),
        forall|j: int| m <= j < y.len() ==> is_white_space(#[trigger] y[j]),
        m > 0 ==> !is_white_space(y[m - 1]),
    ensures
        trim_end(y) == y.take(m),
    decreases y.len() - m,
{
    if m == y.len() {
        assert(y.take(m) =~= y);
    } else {
        assert(is_white_space(y.last()));
        let z = y.drop_last();
        assert forall|j: int| m <= j < z.len() implies is_white_space(#[trigger] z[j]) by {
            assert(z[j] == y[j]);
        }
        lemma_trim_end(z, m);
        assert(z.take(m) =~= y.take(m));
    }
}

/// Splitting a text with no separator gives the text itself.
proof fn lemma_split_none(s: Seq<char>, sep: char)
    requires
        forall|j: int| 0 <= j < s.len() ==> #[trigger] s[j] != sep,
    ensures
        split(s, sep) == seq![s],
    decreases s.len(),
{
    if s.len() == 0 {
        assert(s =~= Seq::<char>::empty());
    } else {
        let t = s.drop_first();
        assert forall|j: int| 0 <= j < t.len() implies #[trigger] t[j] != sep by {
            assert(t[j] == s[j + 1]);
        }
        lemma_split_none(t, sep);
        assert(seq![s[0]] + t =~= s);
        assert(seq![t].update(0, seq![s[0]] + t) =~= seq![s]);
    }
}

/// Splitting a text whose first separator stands at `i` gives the text
/// before it, then the pieces of the text after it.
proof fn lemma_split_first(s: Seq<char>, sep: char, i: int)
    requires
        0 <= i < s.len(),
        s[i] == sep,
        forall|j: int| 0 <= j < i ==> #[trigger] s[j] != sep,
    ensures
        split(s, sep) == seq![s.take(i)] + split(s.skip(i + 1), sep),
    decreases i,
{
    if i == 0 {
        assert(s.take(0) =~= Seq::<char>::empty());
        assert(s.skip(1) =~= s.drop_first());
    } else {
        let t = s.drop_first();
        assert forall|j: int| 0 <= j < i - 1 implies #[trigger] t[j] != sep by {
            assert(t[j] == s[j + 1]);
        }
        lemma_split_first(t, sep, i - 1);
        let rest = split(t, sep);
        assert(t.skip(i) =~= s.skip(i + 1));
        assert(seq![s[0]] + t.take(i - 1) =~= s.take(i));
        assert(rest.update(0, seq![s[0]] + rest[0]) =~= seq![s.take(i)] + split(s.skip(i + 1), sep));
    }
}

/// The first piece of `s` ends at `k`, the first separator or the end.
proof fn lemma_split_head(s: Seq<char>, sep: char, k: int)
    requires
        0 <= k <= s.len(),
        forall|j: int| 0 <= j < k ==> #[trigger] s[j] != sep,
        k < s.len() ==> s[k] == sep,
    ensures
        split(s, sep).len() >= 1,
        split(s, sep)[0] == s.take(k),
        k < s.len() ==> split(s, sep) == seq![s.take(k)] + split(s.skip(k + 1), sep),
        k == s.len() ==> split(s, sep).len() == 1,
{
    if k < s.len() {
        lemma_split_first(s, sep, k);
    } else {
        lemma_split_none(s, sep);
        assert(s.take(k) =~= s);
    }
}

proof fn lemma_digits_error_extends(d: Seq<char>, k: int, max: nat)
    requires
        0 <= k <= d.len(),
        digits_value(d.take(k), max) is Err,
    ensures
        digits_value(d, max) == digits_value(d.take(k), max),
    decreases d.len(),
{
    if k == d.len() {
        assert(d.take(k) =~= d);
    } else {
        let e = d.drop_last();
        assert(e.take(k) =~= d.take(k));
        lemma_digits_error_extends(e, k, max);
    }
}

// ---------------------------------------------------------------------------
// Scanning
// ---------------------------------------------------------------------------

/// The characters of `s`, in order.
fn chars_of(s: &str) -> (v: Vec<char>)
    ensures
        v@ == s@,
{
    let mut v: Vec<char> = Vec::new();
    for c in it: s.chars()
        invariant
            v@ == it.seq().take(it.index() as int),
            it.seq() == s@,
    {
        v.push(c);
    }
    v
}

fn is_white_space_char(c: char) -> (b: bool)
    ensures
        b == is_white_space(c),
{
    let u = c as u32;
    (0x09 <= u && u <= 0x0D) || u == 0x20 || u == 0x85 || u == 0xA0 || u == 0x1680 || (0x2000 <= u
        && u <= 0x200A) || u == 0x2028 || u == 0x2029 || u == 0x202F || u == 0x205F || u == 0x3000
}

/// The position of the first `sep` at or after `from`, or `v.len()`.
fn find_sep(v: &Vec<char>, from: usize, sep: char) -> (end: usize)
    requires
        from <= v.len(),
    ensures
        from <= end <= v.len(),
        forall|j: int| from <= j < end ==> #[trigger] v@[j] != sep,
        end < v.len() ==> v@[end as int] == sep,
{
    let mut end = from;
    while end < v.len() && v[end] != sep
        invariant
            from <= end <= v.len(),
            forall|j: int| from <= j < end ==> #[trigger] v@[j] != sep,
        decreases v.len() - end,
    {
        end = end + 1;
    }
    end
}

/// The bounds of the trimmed text of `v[lo..hi]`.
fn trim_range(v: &Vec<char>, lo: usize, hi: usize) -> (r: (usize, usize))
    requires
        lo <= hi <= v.len(),
    ensures
        lo <= r.0 <= r.1 <= hi,
        v@.subrange(r.0 as int, r.1 as int) == trim(v@.subrange(lo as int, hi as int)),
{
    let ghost x = v@.subrange(lo as int, hi as int);
    let mut a = lo;
    while a < hi && is_white_space_char(v[a])
        invariant
            lo <= a <= hi <= v.len(),
            forall|j: int| lo <= j < a ==> is_white_space(#[trigger] v@[j]),
        decreases hi - a,
    {
        a = a + 1;
    }
    proof {
        assert forall|j: int| 0 <= j < a - lo implies is_white_space(#[trigger] x[j]) by {
            assert(x[j] == v@[lo + j]);
        }
        lemma_trim_start(x, a - lo);
        assert(x.skip(a - lo) =~= v@.subrange(a as int, hi as int));
    }
    let ghost y = v@.subrange(a as int, hi as int);
    let mut b = hi;
    while b > a && is_white_space_char(v[b - 1])
        invariant
            lo <= a <= b <= hi <= v.len(),
            forall|j: int| b <= j < hi ==> is_white_space(#[trigger] v@[j]),
        decreases b - a,
    {
        b = b - 1;
    }
    proof {
        assert forall|j: int| b - a <= j < y.len() implies is_white_space(#[trigger] y[j]) by {
            assert(y[j] == v@[a + j]);
        }
        lemma_trim_end(y, b - a);
        assert(y.take(b - a) =~= v@.subrange(a as int, b as int));
    }
    (a, b)
}

/// `str::parse` of `v[lo..hi]` for an unsigned type whose largest value is `max`.
fn parse_unsigned_range(v: &Vec<char>, lo: usize, hi: usize, max: u64) -> (r: Result<u64, NumberError>)
    requires
        lo <= hi <= v.len(),
    ensures
        match r {
            Ok(n) => parse_unsigned(v@.subrange(lo as int, hi as int), max as nat) == Ok::<nat, NumberError>(n as nat),
            Err(e) => parse_unsigned(v@.subrange(lo as int, hi as int), max as nat) == Err::<nat, NumberError>(e),
        },
{
    let ghost s = v@.subrange(lo as int, hi as int);
    if lo == hi {
        return Err(NumberError::Empty);
    }
    let mut start = lo;
    if v[lo] == '+' {
        if hi - lo == 1 {
            return Err(NumberError::InvalidDigit);
        }
        start = lo + 1;
    }
    let ghost d = v@.subrange(start as int, hi as int);
    proof {
        if start == lo + 1 {
            assert(s.drop_first() =~= d);
        } else {
            assert(s =~= d);
        }
    }
    let mut acc: u64 = 0;
    let mut i = start;
    proof {
        assert(d.take(0) =~= Seq::<char>::empty());
    }
    while i < hi
        invariant
            start <= i <= hi <= v.len(),
            d == v@.subrange(start as int, hi as int),
            parse_unsigned(v@.subrange(lo as int, hi as int), max as nat) == digits_value(d, max as nat),
            acc <= max,
            digits_value(d.take(i - start), max as nat) == Ok::<nat, NumberError>(acc as nat),
        decreases hi - i,
    {
        let c = v[i];
        let ghost p = d.take(i - start + 1);
        proof {
            assert(p.drop_last() =~= d.take(i - start));
            assert(p.last() == c);
        }
        let u = c as u32;
        if !(48 <= u && u <= 57) {
            proof {
                lemma_digits_error_extends(d, i - start + 1, max as nat);
            }
            return Err(NumberError::InvalidDigit);
        }
        let next: u128 = acc as u128 * 10 + (u - 48) as u128;
        if next > max as u128 {
            proof {
                lemma_digits_error_extends(d, i - start + 1, max as nat);
            }
            return Err(NumberError::TooLarge);
        }
        acc = next as u64;
        i = i + 1;
    }
    proof {
        assert(d.take(hi - start) =~= d);
    }
    Ok(acc)
}

// ---------------------------------------------------------------------------
// Lists
// ---------------------------------------------------------------------------

/// The items of the comma-separated list `raw`: split at `,`, each piece
/// trimmed, empty pieces dropped.
pub fn list_items(raw: &str) -> (items: Vec<String>)
    ensures
        texts(items@) == list_items_of(raw@),
{
    let v = chars_of(raw);
    let n = v.len();
    let mut items: Vec<String> = Vec::new();
    let mut start: usize = 0;
    proof {
        assert(v@.skip(0) =~= v@);
        assert(texts(items@) =~= Seq::<Seq<char>>::empty());
        assert(Seq::<Seq<char>>::empty() + list_items_of(raw@) =~= list_items_of(raw@));
    }
    loop
        invariant_except_break
            list_items_of(raw@) == texts(items@) + nonempty_trimmed(split(v@.skip(start as int), ',')),
        invariant
            start <= n == v.len(),
            v@ == raw@,
        ensures
            texts(items@) == list_items_of(raw@),
        decreases n - start,
    {
        let end = find_sep(&v, start, ',');
        let ghost rest = v@.skip(start as int);
        let ghost piece = v@.subrange(start as int, end as int);
        let ghost tail = if end < n { split(v@.skip(end + 1), ',') } else { Seq::<Seq<char>>::empty() };
        proof {
            assert forall|j: int| 0 <= j < end - start implies #[trigger] rest[j] != ',' by {
                assert(rest[j] == v@[start + j]);
            }
            lemma_split_head(rest, ',', end - start);
            assert(rest.take(end - start) =~= piece);
            if end < n {
                assert(rest.skip(end - start + 1) =~= v@.skip(end + 1));
            }
            let pieces = split(rest, ',');
            assert(pieces =~= seq![piece] + tail);
            assert(pieces.drop_first() =~= tail);
        }
        let (a, b) = trim_range(&v, start, end);
        let ghost before = texts(items@);
        if a < b {
            let item = raw.substring_char(a, b).to_owned();
            items.push(item);
            proof {
                assert(texts(items@) =~= before + seq![trim(piece)]);
                assert(before + (seq![trim(piece)] + nonempty_trimmed(tail)) =~= texts(items@)
                    + nonempty_trimmed(tail));
            }
        }
        if end == n {
            proof {
                assert(nonempty_trimmed(tail) =~= Seq::<Seq<char>>::empty());
                assert(texts(items@) + Seq::<Seq<char>>::empty() =~= texts(items@));
            }
            break;
        }
        start = end + 1;
    }
    items
}

// ---------------------------------------------------------------------------
// Voters
// ---------------------------------------------------------------------------

/// Why a voter list was refused.
#[derive(Debug, Clone, Copy, PartialEq, Eq, Structural)]
pub enum VoterListError {
    /// An item is not a node id.
    Number(NumberError),
    /// The list names no node.
    NoVoters,
}

impl VoterListError {
    /// The human-readable text of the error.
    pub fn message(&self) -> (s: String)
        ensures
            s@ == voter_list_error_text(*self),
    {
        match self {
            VoterListError::Number(e) => e.message(),
            VoterListError::NoVoters => String::from_str("RAFT_VOTERS must list at least one node id"),
        }
    }
}

pub open spec fn voter_list_error_text(e: VoterListError) -> Seq<char> {
    match e {
        VoterListError::Number(n) => number_error_text(n),
        VoterListError::NoVoters => "RAFT_VOTERS must list at least one node id"@,
    }
}

/// Each item read as a `u64`, stopping at the first that is not one.
pub open spec fn ids_of(items: Seq<Seq<char>>) -> Result<Seq<u64>, NumberError>
    decreases items.len(),
{
    if items.len() == 0 {
        Ok(Seq::empty())
    } else {
        match parse_unsigned(items[0], u64::MAX as nat) {
            Err(e) => Err(e),
            Ok(v) => match ids_of(items.drop_first()) {
                Err(e) => Err(e),
                Ok(rest) => Ok(seq![v as u64] + rest),
            },
        }
    }
}

/// `found` placed before the ids of the remaining items.
pub open spec fn ids_after(found: Seq<u64>, rest: Result<Seq<u64>, NumberError>) -> Result<Seq<u64>, NumberError> {
    match rest {
        Err(e) => Err(e),
        Ok(r) => Ok(found + r),
    }
}

/// The voter list `raw` names: its items as node ids; the first item that is
/// not one is the error, and a list with no item is refused.
pub open spec fn voters_of(raw: Seq<char>) -> Result<Seq<u64>, VoterListError> {
    match ids_of(list_items_of(raw)) {
        Err(e) => Err(VoterListError::Number(e)),
        Ok(ids) => if ids.len() == 0 {
            Err(VoterListError::NoVoters)
        } else {
            Ok(ids)
        },
    }
}

/// Parses a comma-separated list of node ids, such as `"1, 2,3"`.
pub fn parse_voters(raw: &str) -> (r: Result<Vec<NodeId>, VoterListError>)
    ensures
        match r {
            Ok(ids) => voters_of(raw@) == Ok::<Seq<u64>, VoterListError>(ids@),
            Err(e) => voters_of(raw@) == Err::<Seq<u64>, VoterListError>(e),
        },
{
    let items = list_items(raw);
    let ghost all = list_items_of(raw@);
    let mut ids: Vec<NodeId> = Vec::new();
    let mut i: usize = 0;
    proof {
        assert(all.skip(0) =~= all);
        assert(ids_after(ids@, ids_of(all)) =~= ids_of(all)) by {
            match ids_of(all) {
                Ok(r) => assert(Seq::<u64>::empty() + r =~= r),
                Err(_) => {},
            }
        }
    }
    while i < items.len()
        invariant
            i <= items.len(),
            all == list_items_of(raw@),
            texts(items@) == all,
            ids_of(all) == ids_after(ids@, ids_of(all.skip(i as int))),
        decreases items.len() - i,
    {
        let text = chars_of(items[i].as_str());
        let ghost rest = all.skip(i as int);
        proof {
            assert(text@ == all[i as int]);
            assert(rest[0] == all[i as int]);
            assert(rest.drop_first() =~= all.skip(i + 1));
            assert(text@.subrange(0, text@.len() as int) =~= text@);
        }
        match parse_unsigned_range(&text, 0, text.len(), u64::MAX) {
            Err(e) => {
                proof {
                    assert(ids_of(rest) == Err::<Seq<u64>, NumberError>(e));
                }
                return Err(VoterListError::Number(e));
            },
            Ok(id) => {
                let ghost before = ids@;
                ids.push(id);
                proof {
                    match ids_of(all.skip(i + 1)) {
                        Ok(r) => assert(before + (seq![id] + r) =~= ids@ + r),
                        Err(_) => {},
                    }
                }
            },
        }
        i = i + 1;
    }
    proof {
        assert(all.skip(i as int) =~= Seq::<Seq<char>>::empty());
        assert(ids@ + Seq::<u64>::empty() =~= ids@);
    }
    if ids.len() == 0 {
        return Err(VoterListError::NoVoters);
    }
    Ok(ids)
}

// ---------------------------------------------------------------------------
// Seed peers
// ---------------------------------------------------------------------------

/// One item of the seed-peer list, `node_id:host:port`.
#[derive(Debug, Clone)]
pub struct PeerEntry {
    pub node_id: NodeId,
    pub host: String,
    pub port: u16,
}

/// Why an item of the seed-peer list was refused.
#[derive(Debug, Clone, Copy, PartialEq, Eq, Structural)]
pub enum PeerEntryError {
    /// The node id is not a number.
    NodeId(NumberError),
    /// The item has no host field.
    MissingHost,
    /// The item has no port field.
    MissingPort,
    /// The port is not a `u16`.
    Port(NumberError),
}

impl PeerEntryError {
    /// The human-readable text of the error.
    pub fn message(&self) -> (s: String)
        ensures
            s@ == peer_entry_error_text(*self),
    {
        match self {
            PeerEntryError::NodeId(e) => e.message(),
            PeerEntryError::MissingHost => String::from_str("peer entry missing host"),
            PeerEntryError::MissingPort => String::from_str("peer entry missing port"),
            PeerEntryError::Port(e) => e.message(),
        }
    }
}

pub open spec fn peer_entry_error_text(e: PeerEntryError) -> Seq<char> {
    match e {
        PeerEntryError::NodeId(n) => number_error_text(n),
        PeerEntryError::MissingHost => "peer entry missing host"@,
        PeerEntryError::MissingPort => "peer entry missing port"@,
        PeerEntryError::Port(n) => number_error_text(n),
    }
}

/// What the item `item` of the seed-peer list says, for node `self_id`: its
/// fields are split at `:`; the node id comes first and an item naming
/// `self_id` is skipped (`None`) before the other fields are looked at; then
/// the host, as written, and the port; fields after the third are ignored.
pub open spec fn peer_entry_of(item: Seq<char>, self_id: u64) -> Result<
    Option<(u64, Seq<char>, u16)>,
    PeerEntryError,
> {
    let f = split(item, ':');
    match parse_unsigned(f[0], u64::MAX as nat) {
        Err(e) => Err(PeerEntryError::NodeId(e)),
        Ok(id) => if id == self_id {
            Ok(None)
        } else if f.len() < 2 {
            Err(PeerEntryError::MissingHost)
        } else if f.len() < 3 {
            Err(PeerEntryError::MissingPort)
        } else {
            match parse_unsigned(f[2], u16::MAX as nat) {
                Err(e) => Err(PeerEntryError::Port(e)),
                Ok(port) => Ok(Some((id as u64, f[1], port as u16))),
            }
        },
    }
}

/// Reads one item of the seed-peer list (`node_id:host:port`) on node
/// `self_id`; `None` when the item names this node.
pub fn parse_peer_entry(item: &str, self_id: NodeId) -> (r: Result<Option<PeerEntry>, PeerEntryError>)
    ensures
        match r {
            Ok(None) => peer_entry_of(item@, self_id) == Ok::<Option<(u64, Seq<char>, u16)>, PeerEntryError>(None),
            Ok(Some(e)) => peer_entry_of(item@, self_id) == Ok::<Option<(u64, Seq<char>, u16)>, PeerEntryError>(
                Some((e.node_id, e.host@, e.port)),
            ),
            Err(e) => peer_entry_of(item@, self_id) == Err::<Option<(u64, Seq<char>, u16)>, PeerEntryError>(e),
        },
{
    let v = chars_of(item);
    let n = v.len();
    let ghost f = split(v@, ':');
    let e0 = find_sep(&v, 0, ':');
    proof {
        lemma_split_head(v@, ':', e0 as int);
        assert(v@.take(e0 as int) =~= v@.subrange(0, e0 as int));
    }
    let id = match parse_unsigned_range(&v, 0, e0, u64::MAX) {
        Err(e) => {
            return Err(PeerEntryError::NodeId(e));
        },
        Ok(id) => id,
    };
    if id == self_id {
        return Ok(None);
    }
    if e0 == n {
        return Err(PeerEntryError::MissingHost);
    }
    let e1 = find_sep(&v, e0 + 1, ':');
    let ghost r1 = v@.skip(e0 + 1);
    proof {
        assert forall|j: int| 0 <= j < e1 - e0 - 1 implies #[trigger] r1[j] != ':' by {
            assert(r1[j] == v@[e0 + 1 + j]);
        }
        lemma_split_head(r1, ':', e1 - e0 - 1);
        assert(r1.take(e1 - e0 - 1) =~= v@.subrange(e0 + 1, e1 as int));
        assert(f =~= seq![v@.take(e0 as int)] + split(r1, ':'));
    }
    if e1 == n {
        return Err(PeerEntryError::MissingPort);
    }
    let e2 = find_sep(&v, e1 + 1, ':');
    let ghost r2 = v@.skip(e1 + 1);
    proof {
        assert(r1.skip(e1 - e0) =~= r2);
        assert forall|j: int| 0 <= j < e2 - e1 - 1 implies #[trigger] r2[j] != ':' by {
            assert(r2[j] == v@[e1 + 1 + j]);
        }
        lemma_split_head(r2, ':', e2 - e1 - 1);
        assert(r2.take(e2 - e1 - 1) =~= v@.subrange(e1 + 1, e2 as int));
        assert(f.len() >= 3);
        assert(f[1] == v@.subrange(e0 + 1, e1 as int));
        assert(f[2] == v@.subrange(e1 + 1, e2 as int));
    }
    let port = match parse_unsigned_range(&v, e1 + 1, e2, 65535) {
        Err(e) => {
            return Err(PeerEntryError::Port(e));
        },
        Ok(p) => p as u16,
    };
    let host = item.substring_char(e0 + 1, e1).to_owned();
    Ok(Some(PeerEntry { node_id: id, host, port }))
}

// ---------------------------------------------------------------------------
// Numbers and the configuration
// ---------------------------------------------------------------------------

/// `raw` read as a `u64`, as `str::parse` reads it.
pub fn parse_u64(raw: &str) -> (r: Result<u64, NumberError>)
    ensures
        match r {
            Ok(n) => parse_unsigned(raw@, u64::MAX as nat) == Ok::<nat, NumberError>(n as nat),
            Err(e) => parse_unsigned(raw@, u64::MAX as nat) == Err::<nat, NumberError>(e),
        },
{
    let v = chars_of(raw);
    proof {
        assert(v@.subrange(0, v@.len() as int) =~= v@);
    }
    parse_unsigned_range(&v, 0, v.len(), u64::MAX)
}

/// The base election timeout a node gets when none is configured: 500 ms,
/// and 200 ms more per unit of its id, so nodes time out one after another.
pub open spec fn default_election_timeout(node_id: u64) -> int {
    500 + node_id * 200
}

/// The election jitter a node gets when none is configured.
pub open spec fn default_election_jitter(node_id: u64) -> int {
    10 + node_id * 30
}

pub open spec fn setting_or(value: Option<u64>, default: int) -> int {
    match value {
        Some(v) => v as int,
        None => default,
    }
}

/// The configuration of node `node_id`, with the given timings (in
/// milliseconds) where they are set and the defaults elsewhere: election
/// timeout `500 + 200 * node_id`, jitter `10 + 30 * node_id`, heartbeat
/// 100, RPC timeout 500; no retries and a snapshot threshold of 10 000.
pub fn build_config(
    node_id: NodeId,
    voters: Vec<NodeId>,
    seed_peers: Vec<SeedPeer>,
    election_timeout_ms: Option<u64>,
    election_jitter_ms: Option<u64>,
    heartbeat_ms: Option<u64>,
    rpc_timeout_ms: Option<u64>,
) -> (c: RaftConfig)
    requires
        default_election_timeout(node_id) <= u64::MAX,
    ensures
        c.node_id == node_id,
        c.voters@ == voters@,
        c.seed_peers@ == seed_peers@,
        c.election_timeout == setting_or(election_timeout_ms, default_election_timeout(node_id)),
        c.election_jitter == setting_or(election_jitter_ms, default_election_jitter(node_id)),
        c.heartbeat_interval == setting_or(heartbeat_ms, 100),
        c.rpc_timeout == setting_or(rpc_timeout_ms, 500),
        c.rpc_max_retries == 0,
        c.snapshot_threshold == 10_000,
{
    let election_default = 500 + node_id * 200;
    let jitter_default = 10 + node_id * 30;
    RaftConfig {
        node_id,
        voters,
        seed_peers,
        election_timeout: match election_timeout_ms {
            Some(v) => v,
            None => election_default,
        },
        election_jitter: match election_jitter_ms {
            Some(v) => v,
            None => jitter_default,
        },
        heartbeat_interval: match heartbeat_ms {
            Some(v) => v,
            None => 100,
        },
        rpc_timeout: match rpc_timeout_ms {
            Some(v) => v,
            None => 500,
        },
        rpc_max_retries: 0,
        snapshot_threshold: 10_000,
    }
}

} // verus!
