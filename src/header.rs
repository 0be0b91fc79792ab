//! Header fields: parsing the header section and looking fields up by name.
use vstd::prelude::*;

use crate::buffered::{BufReader, newline_at, lemma_newline_at_bounds};
use crate::status::strip_cr;

verus! {

pub open spec fn is_ws(b: u8) -> bool {
    b == 0x20 || b == 0x09
}

/// ASCII lower case of a byte.
pub open spec fn lower(b: u8) -> u8 {
    if 0x41 <= b <= 0x5a {
        (b + 0x20) as u8
    } else {
        b
    }
}

/// Equality of two byte strings, ignoring ASCII case.
pub open spec fn eq_ci(a: Seq<u8>, b: Seq<u8>) -> bool {
    a.len() == b.len() && forall|i: int| 0 <= i < a.len() ==> lower(#[trigger] a[i]) == lower(b[i])
}

/// The index of the first `c` in `s` at or after `p`, or `s.len()` if there is none.
pub open spec fn find_byte(s: Seq<u8>, p: nat, c: u8) -> nat
    decreases s.len() - p,
{
    if p >= s.len() {
        s.len()
    } else if s[p as int] == c {
        p
    } else {
        find_byte(s, p + 1, c)
    }
}

/// The first index in `[a, b)` that holds no space or tab, or `b`.
pub open spec fn trim_start_at(s: Seq<u8>, a: nat, b: nat) -> nat
    decreases b - a,
{
    if a < b && is_ws(s[a as int]) {
        trim_start_at(s, a + 1, b)
    } else {
        a
    }
}

/// The end of `[a, b)` once trailing spaces and tabs are dropped.
pub open spec fn trim_end_at(s: Seq<u8>, a: nat, b: nat) -> nat
    decreases b - a,
{
    if a < b && is_ws(s[b - 1]) {
        trim_end_at(s, a, (b - 1) as nat)
    } else {
        b
    }
}

/// The bytes of `s` in `[a, b)`, without leading or trailing spaces and tabs.
pub open spec fn trimmed(s: Seq<u8>, a: nat, b: nat) -> Seq<u8> {
    let p = trim_start_at(s, a, b);
    s.subrange(p as int, trim_end_at(s, p, b) as int)
}

/// Whether `s` holds no space or tab before index `k`.
pub open spec fn no_ws_before(s: Seq<u8>, k: nat) -> bool {
    forall|i: int| 0 <= i < k ==> !is_ws(#[trigger] s[i])
}

/// What a header line `Name: value` holds: the name (non-empty, without
/// spaces or tabs) and the value without surrounding spaces or tabs.
pub open spec fn parse_header_spec(line: Seq<u8>) -> Option<(Seq<u8>, Seq<u8>)> {
    let b = strip_cr(line);
    let k = find_byte(b, 0, 0x3a);
    if 0 < k < b.len() && no_ws_before(b, k) {
        Some((b.take(k as int), trimmed(b, k + 1, b.len())))
    } else {
        None
    }
}

proof fn lemma_find_byte(s: Seq<u8>, p: nat, c: u8)
    requires
        p <= s.len(),
    ensures
        p <= find_byte(s, p, c) <= s.len(),
        find_byte(s, p, c) < s.len() ==> s[find_byte(s, p, c) as int] == c,
        forall|i: int| p <= i < find_byte(s, p, c) ==> s[i] != c,
    decreases s.len() - p,
{
    if p < s.len() && s[p as int] != c {
        lemma_find_byte(s, p + 1, c);
    }
}

proof fn lemma_trim_bounds(s: Seq<u8>, a: nat, b: nat)
    requires
        a <= b,
    ensures
        a <= trim_start_at(s, a, b) <= b,
        a <= trim_end_at(s, a, b) <= b,
    decreases b - a,
{
    if a < b && is_ws(s[a as int]) {
        lemma_trim_bounds(s, a + 1, b);
    }
    if a < b && is_ws(s[b - 1]) {
        lemma_trim_bounds(s, a, (b - 1) as nat);
    }
}

/// Copies the bytes of `s` in `[a, b)` without surrounding spaces and tabs.
pub fn trim_copy(s: &Vec<u8>, a: usize, b: usize) -> (r: Vec<u8>)
    requires
        a <= b <= s.len(),
    ensures
        r@ == trimmed(s@, a as nat, b as nat),
{
    let mut p = a;
    while p < b && (s[p] == 0x20 || s[p] == 0x09)
        invariant
            a <= p <= b <= s.len(),
            trim_start_at(s@, p as nat, b as nat) == trim_start_at(s@, a as nat, b as nat),
        decreases b - p,
    {
        p = p + 1;
    }
    let mut q = b;
    while q > p && (s[q - 1] == 0x20 || s[q - 1] == 0x09)
        invariant
            p <= q <= b <= s.len(),
            trim_end_at(s@, p as nat, q as nat) == trim_end_at(s@, p as nat, b as nat),
        decreases q - p,
    {
        q = q - 1;
    }
    let mut r: Vec<u8> = Vec::new();
    let mut i = p;
    while i < q
        invariant
            p <= i <= q <= s.len(),
            r@ == s@.subrange(p as int, i as int),
        decreases q - i,
    {
        r.push(s[i]);
        i = i + 1;
        assert(r@ =~= s@.subrange(p as int, i as int));
    }
    r
}

/// Parses one header line (the bytes before its line feed).
pub fn parse_header_line(line: &Vec<u8>) -> (r: Option<(Vec<u8>, Vec<u8>)>)
    ensures
        match parse_header_spec(line@) {
            Some((n, v)) => r matches Some((rn, rv)) && rn@ == n && rv@ == v,
            None => r is None,
        },
{
    let n: usize = if line.len() > 0 && line[line.len() - 1] == 0x0d {
        line.len() - 1
    } else {
        line.len()
    };
    let ghost b = strip_cr(line@);
    assert(b =~= line@.take(n as int));
    let mut k: usize = 0;
    let mut name: Vec<u8> = Vec::new();
    while k < n && line[k] != 0x3a
        invariant
            k <= n <= line.len(),
            b == line@.take(n as int),
            b == strip_cr(line@),
            find_byte(b, k as nat, 0x3a) == find_byte(b, 0, 0x3a),
            name@ == b.take(k as int),
            forall|i: int| 0 <= i < k ==> !is_ws(#[trigger] b[i]),
        decreases n - k,
    {
        if line[k] == 0x20 || line[k] == 0x09 {
            proof {
                assert(b[k as int] != 0x3a);
                assert(find_byte(b, k as nat, 0x3a) == find_byte(b, (k + 1) as nat, 0x3a));
                lemma_find_byte(b, (k + 1) as nat, 0x3a);
                assert(is_ws(b[k as int]));
            }
            assert(!no_ws_before(b, find_byte(b, 0, 0x3a)));

            assert(is_ws(strip_cr(line@)[k as int]));
            return None;
        }
        name.push(line[k]);
        k = k + 1;
        assert(name@ =~= b.take(k as int));
    }
    if k == 0 || k == n {
        assert(find_byte(b, k as nat, 0x3a) == k);
        return None;
    }
    assert(find_byte(b, k as nat, 0x3a) == k);
    let value = trim_copy(line, k + 1, n);
    assert(trimmed(line@, (k + 1) as nat, n as nat) == trimmed(b, (k + 1) as nat, b.len()))
        by {
        assert forall|i: int| 0 <= i < n implies b[i] == line@[i] by {}
        lemma_trim_subseq(line@, b, (k + 1) as nat, n as nat);
    }
    Some((name, value))
}

pub proof fn lemma_trim_subseq(s: Seq<u8>, t: Seq<u8>, a: nat, b: nat)
    requires
        a <= b <= s.len(),
        b <= t.len(),
        forall|i: int| 0 <= i < b ==> t[i] == s[i],
    ensures
        trimmed(s, a, b) == trimmed(t, a, b),
{
    lemma_trim_start_same(s, t, a, b);
    let p = trim_start_at(s, a, b);
    lemma_trim_bounds(s, a, b);
    lemma_trim_end_same(s, t, p, b);
    lemma_trim_bounds(s, p, b);
    assert(trimmed(s, a, b) =~= trimmed(t, a, b));
}

proof fn lemma_trim_start_same(s: Seq<u8>, t: Seq<u8>, a: nat, b: nat)
    requires
        a <= b,
        forall|i: int| 0 <= i < b ==> t[i] == s[i],
    ensures
        trim_start_at(s, a, b) == trim_start_at(t, a, b),
    decreases b - a,
{
    if a < b {
        lemma_trim_start_same(s, t, a + 1, b);
    }
}

proof fn lemma_trim_end_same(s: Seq<u8>, t: Seq<u8>, a: nat, b: nat)
    requires
        a <= b,
        forall|i: int| 0 <= i < b ==> t[i] == s[i],
    ensures
        trim_end_at(s, a, b) == trim_end_at(t, a, b),
    decreases b - a,
{
    if a < b {
        lemma_trim_end_same(s, t, a, (b - 1) as nat);
    }
}

} // verus!

verus! {

/// The header fields of a message, in the order in which they came.
pub struct Headers {
    entries: Vec<(Vec<u8>, Vec<u8>)>,
}

/// The values of the fields named `name` (ignoring case), in order.
pub open spec fn values_named(h: Seq<(Seq<u8>, Seq<u8>)>, name: Seq<u8>) -> Seq<Seq<u8>>
    decreases h.len(),
{
    if h.len() == 0 {
        Seq::empty()
    } else if eq_ci(h.last().0, name) {
        values_named(h.drop_last(), name).push(h.last().1)
    } else {
        values_named(h.drop_last(), name)
    }
}

/// Whether a field named `name` (ignoring case) is present.
pub open spec fn has_field(h: Seq<(Seq<u8>, Seq<u8>)>, name: Seq<u8>) -> bool {
    values_named(h, name).len() > 0
}

impl Headers {
    pub closed spec fn view(&self) -> Seq<(Seq<u8>, Seq<u8>)> {
        self.entries@.map_values(|e: (Vec<u8>, Vec<u8>)| (e.0@, e.1@))
    }

    /// No fields.
    pub fn new() -> (r: Headers)
        ensures
            r@ == Seq::<(Seq<u8>, Seq<u8>)>::empty(),
    {
        let r = Headers { entries: Vec::new() };
        assert(r@ =~= Seq::<(Seq<u8>, Seq<u8>)>::empty());
        r
    }

    /// Adds a field after the present ones.
    pub fn append(&mut self, name: Vec<u8>, value: Vec<u8>)
        ensures
            final(self)@ == old(self)@.push((name@, value@)),
    {
        let ghost n = name@;
        let ghost v = value@;
        self.entries.push((name, value));
        assert(self@ =~= old(self)@.push((n, v)));
    }

    /// How many fields there are.
    pub fn len(&self) -> (r: usize)
        ensures
            r == self@.len(),
    {
        self.entries.len()
    }

    /// The name and value of the field at `i`.
    pub fn entry(&self, i: usize) -> (r: (&Vec<u8>, &Vec<u8>))
        requires
            i < self@.len(),
        ensures
            r.0@ == self@[i as int].0,
            r.1@ == self@[i as int].1,
    {
        (&self.entries[i].0, &self.entries[i].1)
    }

    /// Whether a field named `name` (ignoring case) is present.
    pub fn has(&self, name: &Vec<u8>) -> (r: bool)
        ensures
            r == has_field(self@, name@),
    {
        let mut i: usize = 0;
        while i < self.entries.len()
            invariant
                i <= self@.len(),
                self@.len() == self.entries.len(),
                values_named(self@.take(i as int), name@).len() == 0,
            decreases self@.len() - i,
        {
            let (n, _) = self.entry(i);
            assert(self@.take(i + 1).drop_last() =~= self@.take(i as int));
            if eq_ignore_case(n, name) {
                proof {
                    assert(values_named(self@.take(i + 1), name@).len() > 0);
                    lemma_values_prefix(self@, name@, (i + 1) as nat);
                }
                return true;
            }
            i = i + 1;
        }
        assert(self@.take(i as int) =~= self@);
        false
    }
}

/// Values of a prefix of the fields are a prefix of the values.
pub proof fn lemma_values_prefix(h: Seq<(Seq<u8>, Seq<u8>)>, name: Seq<u8>, i: nat)
    requires
        i <= h.len(),
    ensures
        values_named(h.take(i as int), name).len() <= values_named(h, name).len(),
    decreases h.len() - i,
{
    if i < h.len() {
        lemma_values_prefix(h, name, i + 1);
        assert(h.take((i + 1) as int).drop_last() =~= h.take(i as int));
    } else {
        assert(h.take(i as int) =~= h);
    }
}

/// Compares two byte strings, ignoring ASCII case.
pub fn eq_ignore_case(a: &Vec<u8>, b: &Vec<u8>) -> (r: bool)
    ensures
        r == eq_ci(a@, b@),
{
    if a.len() != b.len() {
        return false;
    }
    let mut i: usize = 0;
    while i < a.len()
        invariant
            i <= a.len() == b.len(),
            forall|j: int| 0 <= j < i ==> lower(#[trigger] a@[j]) == lower(b@[j]),
        decreases a.len() - i,
    {
        let x = a[i];
        let y = b[i];
        let lx: u8 = if 0x41 <= x && x <= 0x5a { x + 0x20 } else { x };
        let ly: u8 = if 0x41 <= y && y <= 0x5a { y + 0x20 } else { y };
        if lx != ly {
            return false;
        }
        i = i + 1;
    }
    true
}

/// What the header section starting at `p` holds: its fields, and the index
/// just past the empty line that ends it. `None` when a line does not parse or
/// the stream ends first.
pub open spec fn header_section(s: Seq<u8>, p: nat) -> Option<(Seq<(Seq<u8>, Seq<u8>)>, nat)>
    decreases s.len() - p,
{
    let k = newline_at(s, p);
    if k >= s.len() || k < p {
        None
    } else {
        let l = s.subrange(p as int, k as int);
        if strip_cr(l).len() == 0 {
            Some((Seq::empty(), k + 1))
        } else {
            match parse_header_spec(l) {
                None => None,
                Some(e) => match header_section(s, k + 1) {
                    Some((rest, end)) => Some((seq![e] + rest, end)),
                    None => None,
                },
            }
        }
    }
}

/// `o` with `pre` put before the fields it holds.
pub open spec fn prepend_fields(
    pre: Seq<(Seq<u8>, Seq<u8>)>,
    o: Option<(Seq<(Seq<u8>, Seq<u8>)>, nat)>,
) -> Option<(Seq<(Seq<u8>, Seq<u8>)>, nat)> {
    match o {
        Some((rest, end)) => Some((pre + rest, end)),
        None => None,
    }
}

/// Reads the header section, up to and including the empty line that ends it.
pub fn read_headers(r: &mut BufReader) -> (res: Option<Headers>)
    requires
        old(r).wf(),
    ensures
        final(r).wf(),
        final(r).bytes() == old(r).bytes(),
        match header_section(old(r).bytes(), old(r).position()) {
            Some((h, end)) => res matches Some(hs) && hs@ == h && final(r).position() == end,
            None => res is None,
        },
{
    let ghost s = r.bytes();
    let ghost p0 = r.position();
    let mut h = Headers::new();
    proof {
        assert(h@ + Seq::<(Seq<u8>, Seq<u8>)>::empty() =~= h@);
    }
    loop
        invariant
            r.wf(),
            r.bytes() == s,
            s == old(r).bytes(),
            p0 == old(r).position(),
            header_section(s, p0) == prepend_fields(h@, header_section(s, r.position())),
        decreases s.len() - r.position(),
    {
        let ghost p = r.position();
        proof {
            r.lemma_position_bound();
            lemma_newline_at_bounds(s, p);
        }
        let line = match r.read_line() {
            Some(l) => l,
            None => return None,
        };
        let n = line.len();
        if n == 0 || (n == 1 && line[0] == 0x0d) {
            assert(strip_cr(line@).len() == 0);
            assert(h@ + Seq::<(Seq<u8>, Seq<u8>)>::empty() =~= h@);
            return Some(h);
        }
        assert(strip_cr(line@).len() != 0);
        match parse_header_line(&line) {
            None => return None,
            Some((name, value)) => {
                let ghost e = (name@, value@);
                let ghost pre = h@;
                h.append(name, value);
                proof {
                    match header_section(s, r.position()) {
                        Some((rest, end)) => {
                            assert(pre + (seq![e] + rest) =~= h@ + rest);
                        },
                        None => {},
                    }
                }
            },
        }
    }
}

/// Whether every byte of `s` is an ASCII digit.
pub open spec fn all_digits(s: Seq<u8>) -> bool {
    forall|i: int| 0 <= i < s.len() ==> crate::status::is_digit(#[trigger] s[i])
}

/// The number that the decimal digits `s` write.
pub open spec fn decimal_value(s: Seq<u8>) -> nat
    decreases s.len(),
{
    if s.len() == 0 {
        0
    } else {
        decimal_value(s.drop_last()) * 10 + crate::status::digit_value(s.last())
    }
}

/// The length that a Content-Length value states: one or more decimal digits
/// whose number fits in 64 bits.
pub open spec fn parse_length_spec(s: Seq<u8>) -> Option<u64> {
    if s.len() > 0 && all_digits(s) && decimal_value(s) <= u64::MAX {
        Some(decimal_value(s) as u64)
    } else {
        None
    }
}

proof fn lemma_decimal_prefix(s: Seq<u8>, i: nat)
    requires
        i <= s.len(),
    ensures
        decimal_value(s.take(i as int)) <= decimal_value(s),
    decreases s.len() - i,
{
    if i < s.len() {
        lemma_decimal_prefix(s, i + 1);
        assert(s.take((i + 1) as int).drop_last() =~= s.take(i as int));
    } else {
        assert(s.take(i as int) =~= s);
    }
}

/// Parses a Content-Length value.
pub fn parse_length(s: &Vec<u8>) -> (r: Option<u64>)
    ensures
        r == parse_length_spec(s@),
{
    if s.len() == 0 {
        return None;
    }
    let mut v: u64 = 0;
    let mut i: usize = 0;
    while i < s.len()
        invariant
            i <= s.len(),
            v == decimal_value(s@.take(i as int)),
            all_digits(s@.take(i as int)),
        decreases s.len() - i,
    {
        let c = s[i];
        assert(s@.take(i + 1).drop_last() =~= s@.take(i as int));
        if !(0x30 <= c && c <= 0x39) {
            assert(!crate::status::is_digit(s@[i as int]));
            return None;
        }
        let d = (c - 0x30) as u64;
        if v > (u64::MAX - d) / 10 {
            proof {
                lemma_decimal_prefix(s@, (i + 1) as nat);
            }
            return None;
        }
        v = v * 10 + d;
        i = i + 1;
        assert(all_digits(s@.take(i as int)));
    }
    assert(s@.take(i as int) =~= s@);
    Some(v)
}

} // verus!
