//! Whether a request accepts a gzip-encoded response, read from the bytes of
//! its `Accept-Encoding` header values.
//!
//! The values are read as one comma-separated list of codings, each with
//! optional `;`-separated parameters.  Coding names are compared without
//! regard to ASCII case.  A coding whose weight `q` is zero is refused; `*`
//! stands for every coding that the list does not name.  A value that does
//! not read as text is skipped.

use vstd::prelude::*;

verus! {

/// A byte that may stand in a header value read as text: a visible ASCII
/// character, a space or a horizontal tab.  A value converts to text exactly
/// when all of its bytes are such bytes.
pub open spec fn is_visible_ascii(b: u8) -> bool {
    (32 <= b && b < 127) || b == 9
}

/// The header value reads as text.
pub open spec fn is_header_text(v: Seq<u8>) -> bool {
    forall|i: int| 0 <= i < v.len() ==> is_visible_ascii(#[trigger] v[i])
}

/// The whitespace that trimming removes from such text: space and tab.
pub open spec fn is_trimmed_space(b: u8) -> bool {
    b == 32 || b == 9
}

/// `t` without its leading whitespace.
pub open spec fn trim_start(t: Seq<u8>) -> Seq<u8>
    decreases t.len(),
{
    if t.len() > 0 && is_trimmed_space(t[0]) {
        trim_start(t.drop_first())
    } else {
        t
    }
}

/// `t` without its trailing whitespace.
pub open spec fn trim_end(t: Seq<u8>) -> Seq<u8>
    decreases t.len(),
{
    if t.len() > 0 && is_trimmed_space(t.last()) {
        trim_end(t.drop_last())
    } else {
        t
    }
}

/// `t` without leading and trailing whitespace.
pub open spec fn trim(t: Seq<u8>) -> Seq<u8> {
    trim_end(trim_start(t))
}

/// The ASCII lower-case form of a byte.
pub open spec fn ascii_lower(b: u8) -> u8 {
    if 65 <= b <= 90 {
        (b + 32) as u8
    } else {
        b
    }
}

/// `t` in ASCII lower case.
pub open spec fn lower(t: Seq<u8>) -> Seq<u8> {
    t.map_values(|b: u8| ascii_lower(b))
}

/// The end of the token that starts at `a`: the first `,` or `;` at or after
/// `a`, or the end of the value.
pub open spec fn token_end(v: Seq<u8>, a: int) -> int
    decreases v.len() - a,
{
    if a >= v.len() {
        v.len() as int
    } else if v[a] == 44 || v[a] == 59 {
        a
    } else {
        token_end(v, a + 1)
    }
}

/// The end of the item that holds position `a`: the first `,` at or after
/// `a`, or the end of the value.
pub open spec fn item_end(v: Seq<u8>, a: int) -> int
    decreases v.len() - a,
{
    if a >= v.len() {
        v.len() as int
    } else if v[a] == 44 {
        a
    } else {
        item_end(v, a + 1)
    }
}

/// `a` is where a comma-separated item of `v` begins.
pub open spec fn is_item_start(v: Seq<u8>, a: int) -> bool {
    a == 0 || (0 < a <= v.len() && v[a - 1] == 44)
}

/// The coding named by the item that begins at `a`: its part before any `;`,
/// trimmed, in lower case.
pub open spec fn coding_at(v: Seq<u8>, a: int) -> Seq<u8> {
    lower(trim(v.subrange(a, token_end(v, a))))
}

/// The coding name `gzip`.
pub open spec fn gzip_name() -> Seq<u8> {
    seq![103u8, 122u8, 105u8, 112u8]
}

/// The wildcard `*`, which stands for every coding the list does not name.
pub open spec fn any_name() -> Seq<u8> {
    seq![42u8]
}

/// `t` is a weight of zero: `q=0`, `q=0.`, `q=0.0`, ... (`q` in either case).
pub open spec fn is_zero_weight(t: Seq<u8>) -> bool {
    &&& t.len() >= 3
    &&& (t[0] == 113 || t[0] == 81)
    &&& t[1] == 61
    &&& t[2] == 48
    &&& t.len() > 3 ==> t[3] == 46
    &&& forall|i: int| 4 <= i < t.len() ==> #[trigger] t[i] == 48
}

/// `p` is where a parameter of the item that begins at `a` begins.
pub open spec fn is_param_start(v: Seq<u8>, a: int, p: int) -> bool {
    token_end(v, a) < p <= item_end(v, a) && v[p - 1] == 59
}

/// The parameter that begins at `p` is a zero weight.
pub open spec fn zero_weight_at(v: Seq<u8>, p: int) -> bool {
    is_zero_weight(trim(v.subrange(p, token_end(v, p))))
}

/// The item that begins at `a` carries a zero weight.
pub open spec fn has_zero_weight(v: Seq<u8>, a: int) -> bool {
    exists|p: int| #[trigger] is_param_start(v, a, p) && zero_weight_at(v, p)
}

/// The item that begins at `a` names `name`.
pub open spec fn item_names(v: Seq<u8>, a: int, name: Seq<u8>) -> bool {
    coding_at(v, a) == name
}

/// The item that begins at `a` names `name` with a weight other than zero.
pub open spec fn item_lists(v: Seq<u8>, a: int, name: Seq<u8>) -> bool {
    item_names(v, a, name) && !has_zero_weight(v, a)
}

/// An item that begins before `end` names `name`.
pub open spec fn names_before(v: Seq<u8>, name: Seq<u8>, end: int) -> bool {
    exists|b: int| 0 <= b < end && is_item_start(v, b) && #[trigger] item_names(v, b, name)
}

/// An item that begins before `end` lists `name` with a weight other than zero.
pub open spec fn lists_before(v: Seq<u8>, name: Seq<u8>, end: int) -> bool {
    exists|b: int| 0 <= b < end && is_item_start(v, b) && #[trigger] item_lists(v, b, name)
}

/// Some item of `v` names `name`.
pub open spec fn names_coding(v: Seq<u8>, name: Seq<u8>) -> bool {
    names_before(v, name, (v.len() + 1) as int)
}

/// Some item of `v` names `name` with a weight other than zero.
pub open spec fn lists_coding(v: Seq<u8>, name: Seq<u8>) -> bool {
    lists_before(v, name, (v.len() + 1) as int)
}

/// Some value reads as text and lists `name` with a weight other than zero.
pub open spec fn values_list(values: Seq<Seq<u8>>, name: Seq<u8>) -> bool {
    exists|i: int| 0 <= i < values.len() && is_header_text(values[i]) && #[trigger] lists_coding(values[i], name)
}

/// Some value reads as text and names `name`.
pub open spec fn values_name(values: Seq<Seq<u8>>, name: Seq<u8>) -> bool {
    exists|i: int| 0 <= i < values.len() && is_header_text(values[i]) && #[trigger] names_coding(values[i], name)
}

/// The request accepts gzip: its `Accept-Encoding` values list `gzip` with a
/// weight other than zero, or they name `gzip` nowhere and list `*` with a
/// weight other than zero.
pub open spec fn accepts_gzip_spec(values: Seq<Seq<u8>>) -> bool {
    values_list(values, gzip_name()) || (!values_name(values, gzip_name()) && values_list(
        values,
        any_name(),
    ))
}

/// The header values as mathematical values.
pub open spec fn values_view(values: Seq<&[u8]>) -> Seq<Seq<u8>> {
    values.map_values(|v: &[u8]| v@)
}

pub proof fn lemma_token_end_bounds(v: Seq<u8>, a: int)
    requires
        0 <= a <= v.len(),
    ensures
        a <= token_end(v, a) <= v.len(),
        forall|i: int| a <= i < token_end(v, a) ==> v[i] != 44 && v[i] != 59,
        token_end(v, a) < v.len() ==> (v[token_end(v, a)] == 44 || v[token_end(v, a)] == 59),
    decreases v.len() - a,
{
    if a < v.len() && !(v[a] == 44 || v[a] == 59) {
        lemma_token_end_bounds(v, a + 1);
    }
}

pub proof fn lemma_item_end_bounds(v: Seq<u8>, a: int)
    requires
        0 <= a <= v.len(),
    ensures
        a <= item_end(v, a) <= v.len(),
        forall|i: int| a <= i < item_end(v, a) ==> v[i] != 44,
        item_end(v, a) < v.len() ==> v[item_end(v, a)] == 44,
    decreases v.len() - a,
{
    if a < v.len() && v[a] != 44 {
        lemma_item_end_bounds(v, a + 1);
    }
}

/// Adding the item that begins at `a` to those that begin before `a`, when no
/// other item begins before `c + 1`.
proof fn lemma_items_up_to(v: Seq<u8>, name: Seq<u8>, a: int, c: int)
    requires
        0 <= a <= c <= v.len(),
        is_item_start(v, a),
        forall|j: int| a <= j < c ==> v[j] != 44,
    ensures
        names_before(v, name, c + 1) == (names_before(v, name, a) || item_names(v, a, name)),
        lists_before(v, name, c + 1) == (lists_before(v, name, a) || item_lists(v, a, name)),
{
    if names_before(v, name, c + 1) {
        let b = choose|b: int| 0 <= b < c + 1 && is_item_start(v, b) && #[trigger] item_names(v, b, name);
        if b > a {
            assert(v[b - 1] != 44);
        }
        if b < a {
            assert(names_before(v, name, a));
        }
    }
    if lists_before(v, name, c + 1) {
        let b = choose|b: int| 0 <= b < c + 1 && is_item_start(v, b) && #[trigger] item_lists(v, b, name);
        if b > a {
            assert(v[b - 1] != 44);
        }
        if b < a {
            assert(lists_before(v, name, a));
        }
    }
    if names_before(v, name, a) {
        let b = choose|b: int| 0 <= b < a && is_item_start(v, b) && #[trigger] item_names(v, b, name);
        assert(names_before(v, name, c + 1));
    }
    if lists_before(v, name, a) {
        let b = choose|b: int| 0 <= b < a && is_item_start(v, b) && #[trigger] item_lists(v, b, name);
        assert(lists_before(v, name, c + 1));
    }
}

/// Whether every byte of `v` is a visible ASCII byte.
fn is_text(v: &[u8]) -> (r: bool)
    ensures
        r == is_header_text(v@),
{
    let mut i: usize = 0;
    while i < v.len()
        invariant
            i <= v.len(),
            forall|j: int| 0 <= j < i ==> is_visible_ascii(#[trigger] v@[j]),
        decreases v.len() - i,
    {
        let b = v[i];
        if !((32 <= b && b < 127) || b == 9) {
            return false;
        }
        i = i + 1;
    }
    true
}

/// The end of the token that starts at `a`.
fn find_token_end(v: &[u8], a: usize) -> (e: usize)
    requires
        a <= v.len(),
    ensures
        e == token_end(v@, a as int),
{
    let mut e = a;
    while e < v.len() && v[e] != 44 && v[e] != 59
        invariant
            a <= e <= v.len(),
            token_end(v@, e as int) == token_end(v@, a as int),
        decreases v.len() - e,
    {
        e = e + 1;
    }
    e
}

/// The end of the item that holds position `a`.
fn find_item_end(v: &[u8], a: usize) -> (c: usize)
    requires
        a <= v.len(),
    ensures
        c == item_end(v@, a as int),
{
    let mut c = a;
    while c < v.len() && v[c] != 44
        invariant
            a <= c <= v.len(),
            item_end(v@, c as int) == item_end(v@, a as int),
        decreases v.len() - c,
    {
        c = c + 1;
    }
    c
}

/// Where the bytes of `v` in `a..e` begin and end once trimmed.
fn trimmed_range(v: &[u8], a: usize, e: usize) -> (r: (usize, usize))
    requires
        a <= e <= v.len(),
    ensures
        a <= r.0 <= r.1 <= e,
        v@.subrange(r.0 as int, r.1 as int) == trim(v@.subrange(a as int, e as int)),
{
    let mut s = a;
    while s < e && (v[s] == 32 || v[s] == 9)
        invariant
            a <= s <= e,
            e <= v.len(),
            trim_start(v@.subrange(s as int, e as int)) == trim_start(v@.subrange(a as int, e as int)),
        decreases e - s,
    {
        assert(v@.subrange(s as int, e as int).drop_first() == v@.subrange(s + 1, e as int));
        s = s + 1;
    }
    assert(trim_start(v@.subrange(s as int, e as int)) == v@.subrange(s as int, e as int));
    let mut t = e;
    while t > s && (v[t - 1] == 32 || v[t - 1] == 9)
        invariant
            a <= s <= t <= e,
            e <= v.len(),
            trim_end(v@.subrange(s as int, t as int)) == trim(v@.subrange(a as int, e as int)),
        decreases t - s,
    {
        assert(v@.subrange(s as int, t as int).drop_last() == v@.subrange(s as int, t - 1));
        t = t - 1;
    }
    assert(trim_end(v@.subrange(s as int, t as int)) == v@.subrange(s as int, t as int));
    (s, t)
}

/// The ASCII lower-case form of `b`.
fn to_ascii_lower(b: u8) -> (r: u8)
    ensures
        r == ascii_lower(b),
{
    if 65 <= b && b <= 90 {
        b + 32
    } else {
        b
    }
}

/// Whether the bytes of `v` in `s..t`, in lower case, are `name`.
fn lower_is(v: &[u8], s: usize, t: usize, name: &[u8]) -> (r: bool)
    requires
        s <= t <= v.len(),
    ensures
        r == (lower(v@.subrange(s as int, t as int)) == name@),
{
    let ghost w = lower(v@.subrange(s as int, t as int));
    if t - s != name.len() {
        assert(w.len() == t - s);
        return false;
    }
    let n = name.len();
    let mut i: usize = 0;
    while i < n
        invariant
            s <= t <= v.len(),
            n == name.len(),
            t - s == n,
            i <= n,
            w == lower(v@.subrange(s as int, t as int)),
            forall|j: int| 0 <= j < i ==> w[j] == name@[j],
        decreases n - i,
    {
        if to_ascii_lower(v[s + i]) != name[i] {
            assert(w[i as int] != name@[i as int]);
            return false;
        }
        i = i + 1;
    }
    assert(w =~= name@);
    true
}

/// Whether the bytes of `v` in `s..t` are a zero weight.
fn is_zero_weight_at(v: &[u8], s: usize, t: usize) -> (r: bool)
    requires
        s <= t <= v.len(),
    ensures
        r == is_zero_weight(v@.subrange(s as int, t as int)),
{
    let ghost w = v@.subrange(s as int, t as int);
    if t - s < 3 {
        return false;
    }
    if !((v[s] == 113 || v[s] == 81) && v[s + 1] == 61 && v[s + 2] == 48) {
        return false;
    }
    if t - s == 3 {
        return true;
    }
    if v[s + 3] != 46 {
        return false;
    }
    let mut i: usize = s + 4;
    while i < t
        invariant
            s + 4 <= i <= t,
            t <= v.len(),
            w == v@.subrange(s as int, t as int),
            forall|j: int| 4 <= j < i - s ==> #[trigger] w[j] == 48,
        decreases t - i,
    {
        if v[i] != 48 {
            assert(w[i - s] != 48);
            return false;
        }
        i = i + 1;
    }
    true
}

/// Whether the item that begins at `a`, whose coding ends at `te` and which
/// ends at `ie`, carries a zero weight.
fn zero_weight_in_item(v: &[u8], a: usize, te: usize, ie: usize) -> (r: bool)
    requires
        a <= v.len(),
        te == token_end(v@, a as int),
        ie == item_end(v@, a as int),
    ensures
        r == has_zero_weight(v@, a as int),
{
    proof {
        lemma_token_end_bounds(v@, a as int);
        lemma_item_end_bounds(v@, a as int);
    }
    if te == ie {
        return false;
    }
    let mut p: usize = te + 1;
    loop
        invariant
            a <= te < p <= ie <= v.len(),
            te == token_end(v@, a as int),
            ie == item_end(v@, a as int),
            forall|j: int| a <= j < ie ==> v@[j] != 44,
            ie < v.len() ==> v@[ie as int] == 44,
            v@[p - 1] == 59,
            forall|q: int| #[trigger] is_param_start(v@, a as int, q) && q < p ==> !zero_weight_at(v@, q),
        decreases ie - p,
    {
        let pe = find_token_end(v, p);
        proof {
            lemma_token_end_bounds(v@, p as int);
            if pe > ie {
                assert(v@[ie as int] != 44);
            }
        }
        let (s, t) = trimmed_range(v, p, pe);
        if is_zero_weight_at(v, s, t) {
            assert(is_param_start(v@, a as int, p as int));
            return true;
        }
        if pe == ie {
            assert forall|q: int| #[trigger] is_param_start(v@, a as int, q) implies !zero_weight_at(v@, q) by {
                if q > p {
                    assert(v@[q - 1] != 59);
                }
            }
            return false;
        }
        assert forall|q: int| #[trigger] is_param_start(v@, a as int, q) && q < pe + 1 implies !zero_weight_at(v@, q) by {
            if q > p {
                assert(v@[q - 1] != 59);
            }
        }
        p = pe + 1;
    }
}

/// What one header value says of `gzip` and `*`.
struct ValueCodings {
    lists_gzip: bool,
    names_gzip: bool,
    lists_any: bool,
}

/// Reads the items of one header value.
fn read_value(v: &[u8]) -> (r: ValueCodings)
    ensures
        r.lists_gzip == lists_coding(v@, gzip_name()),
        r.names_gzip == names_coding(v@, gzip_name()),
        r.lists_any == lists_coding(v@, any_name()),
{
    let gzip: [u8; 4] = [103u8, 122u8, 105u8, 112u8];
    let any: [u8; 1] = [42u8];
    assert(gzip@ == gzip_name());
    assert(any@ == any_name());
    let mut r = ValueCodings { lists_gzip: false, names_gzip: false, lists_any: false };
    let mut a: usize = 0;
    loop
        invariant
            a <= v.len(),
            is_item_start(v@, a as int),
            gzip@ == gzip_name(),
            any@ == any_name(),
            r.lists_gzip == lists_before(v@, gzip_name(), a as int),
            r.names_gzip == names_before(v@, gzip_name(), a as int),
            r.lists_any == lists_before(v@, any_name(), a as int),
        decreases v.len() - a,
    {
        let te = find_token_end(v, a);
        let ie = find_item_end(v, a);
        proof {
            lemma_token_end_bounds(v@, a as int);
            lemma_item_end_bounds(v@, a as int);
        }
        let (s, t) = trimmed_range(v, a, te);
        let is_gzip = lower_is(v, s, t, gzip.as_slice());
        let is_any = lower_is(v, s, t, any.as_slice());
        let zero = zero_weight_in_item(v, a, te, ie);
        proof {
            lemma_items_up_to(v@, gzip_name(), a as int, ie as int);
            lemma_items_up_to(v@, any_name(), a as int, ie as int);
        }
        r.lists_gzip = r.lists_gzip || (is_gzip && !zero);
        r.names_gzip = r.names_gzip || is_gzip;
        r.lists_any = r.lists_any || (is_any && !zero);
        if ie == v.len() {
            return r;
        }
        a = ie + 1;
    }
}

/// Returns `true` if the request signals it accepts gzip-encoded responses,
/// given the bytes of each of its `Accept-Encoding` header values.
pub fn accepts_gzip(accept_encoding: &[&[u8]]) -> (r: bool)
    ensures
        r == accepts_gzip_spec(values_view(accept_encoding@)),
{
    let ghost vals = values_view(accept_encoding@);
    let mut lists_gzip = false;
    let mut names_gzip = false;
    let mut lists_any = false;
    let mut i: usize = 0;
    while i < accept_encoding.len()
        invariant
            i <= accept_encoding.len(),
            vals == values_view(accept_encoding@),
            lists_gzip == values_list(vals.take(i as int), gzip_name()),
            names_gzip == values_name(vals.take(i as int), gzip_name()),
            lists_any == values_list(vals.take(i as int), any_name()),
        decreases accept_encoding.len() - i,
    {
        let v = accept_encoding[i];
        let ghost before = vals.take(i as int);
        let ghost after = vals.take(i + 1);
        assert(after == before.push(v@));
        if is_text(v) {
            let c = read_value(v);
            proof {
                assert(values_list(after, gzip_name()) == (lists_gzip || c.lists_gzip)) by {
                    if values_list(after, gzip_name()) {
                        let j = choose|j: int| 0 <= j < after.len() && is_header_text(after[j]) && #[trigger] lists_coding(after[j], gzip_name());
                        if j < i {
                            assert(before[j] == after[j]);
                        }
                    }
                    if lists_gzip {
                        let j = choose|j: int| 0 <= j < before.len() && is_header_text(before[j]) && #[trigger] lists_coding(before[j], gzip_name());
                        assert(after[j] == before[j]);
                    }
                    if c.lists_gzip {
                        assert(after[i as int] == v@);
                    }
                }
                assert(values_name(after, gzip_name()) == (names_gzip || c.names_gzip)) by {
                    if values_name(after, gzip_name()) {
                        let j = choose|j: int| 0 <= j < after.len() && is_header_text(after[j]) && #[trigger] names_coding(after[j], gzip_name());
                        if j < i {
                            assert(before[j] == after[j]);
                        }
                    }
                    if names_gzip {
                        let j = choose|j: int| 0 <= j < before.len() && is_header_text(before[j]) && #[trigger] names_coding(before[j], gzip_name());
                        assert(after[j] == before[j]);
                    }
                    if c.names_gzip {
                        assert(after[i as int] == v@);
                    }
                }
                assert(values_list(after, any_name()) == (lists_any || c.lists_any)) by {
                    if values_list(after, any_name()) {
                        let j = choose|j: int| 0 <= j < after.len() && is_header_text(after[j]) && #[trigger] lists_coding(after[j], any_name());
                        if j < i {
                            assert(before[j] == after[j]);
                        }
                    }
                    if lists_any {
                        let j = choose|j: int| 0 <= j < before.len() && is_header_text(before[j]) && #[trigger] lists_coding(before[j], any_name());
                        assert(after[j] == before[j]);
                    }
                    if c.lists_any {
                        assert(after[i as int] == v@);
                    }
                }
            }
            lists_gzip = lists_gzip || c.lists_gzip;
            names_gzip = names_gzip || c.names_gzip;
            lists_any = lists_any || c.lists_any;
        } else {
            proof {
                assert(values_list(after, gzip_name()) == lists_gzip) by {
                    if values_list(after, gzip_name()) {
                        let j = choose|j: int| 0 <= j < after.len() && is_header_text(after[j]) && #[trigger] lists_coding(after[j], gzip_name());
                        assert(before[j] == after[j]);
                    }
                    if lists_gzip {
                        let j = choose|j: int| 0 <= j < before.len() && is_header_text(before[j]) && #[trigger] lists_coding(before[j], gzip_name());
                        assert(after[j] == before[j]);
                    }
                }
                assert(values_name(after, gzip_name()) == names_gzip) by {
                    if values_name(after, gzip_name()) {
                        let j = choose|j: int| 0 <= j < after.len() && is_header_text(after[j]) && #[trigger] names_coding(after[j], gzip_name());
                        assert(before[j] == after[j]);
                    }
                    if names_gzip {
                        let j = choose|j: int| 0 <= j < before.len() && is_header_text(before[j]) && #[trigger] names_coding(before[j], gzip_name());
                        assert(after[j] == before[j]);
                    }
                }
                assert(values_list(after, any_name()) == lists_any) by {
                    if values_list(after, any_name()) {
                        let j = choose|j: int| 0 <= j < after.len() && is_header_text(after[j]) && #[trigger] lists_coding(after[j], any_name());
                        assert(before[j] == after[j]);
                    }
                    if lists_any {
                        let j = choose|j: int| 0 <= j < before.len() && is_header_text(before[j]) && #[trigger] lists_coding(before[j], any_name());
                        assert(after[j] == before[j]);
                    }
                }
            }
        }
        i = i + 1;
    }
    assert(vals.take(i as int) == vals);
    lists_gzip || (!names_gzip && lists_any)
}


/// Items joined into one list, separated by commas.
pub open spec fn join_items(items: Seq<Seq<u8>>) -> Seq<u8>
    decreases items.len(),
{
    if items.len() == 0 {
        Seq::empty()
    } else if items.len() == 1 {
        items[0]
    } else {
        join_items(items.drop_last()) + seq![44u8] + items.last()
    }
}

proof fn lemma_ends_left(u: Seq<u8>, x: Seq<u8>, a: int)
    requires
        0 <= a <= u.len(),
    ensures
        token_end(u + seq![44u8] + x, a) == token_end(u, a),
        item_end(u + seq![44u8] + x, a) == item_end(u, a),
    decreases u.len() - a,
{
    let w = u + seq![44u8] + x;
    if a < u.len() {
        assert(w[a] == u[a]);
        lemma_ends_left(u, x, a + 1);
    } else {
        assert(w[a] == 44);
    }
}

proof fn lemma_ends_right(u: Seq<u8>, x: Seq<u8>, a: int)
    requires
        u.len() + 1 <= a <= u.len() + 1 + x.len(),
    ensures
        token_end(u + seq![44u8] + x, a) == token_end(x, a - u.len() - 1) + u.len() + 1,
        item_end(u + seq![44u8] + x, a) == item_end(x, a - u.len() - 1) + u.len() + 1,
    decreases u.len() + 1 + x.len() - a,
{
    let w = u + seq![44u8] + x;
    if a < w.len() {
        assert(w[a] == x[a - u.len() - 1]);
        lemma_ends_right(u, x, a + 1);
    }
}

/// An item of `u` reads the same in `u , x`.
proof fn lemma_item_left(u: Seq<u8>, x: Seq<u8>, a: int, name: Seq<u8>)
    requires
        0 <= a <= u.len(),
    ensures
        is_item_start(u + seq![44u8] + x, a) == is_item_start(u, a),
        item_names(u + seq![44u8] + x, a, name) == item_names(u, a, name),
        has_zero_weight(u + seq![44u8] + x, a) == has_zero_weight(u, a),
{
    let w = u + seq![44u8] + x;
    lemma_ends_left(u, x, a);
    lemma_token_end_bounds(u, a);
    lemma_item_end_bounds(u, a);
    if a > 0 {
        assert(w[a - 1] == u[a - 1]);
    }
    assert(w.subrange(a, token_end(w, a)) == u.subrange(a, token_end(u, a)));
    if has_zero_weight(w, a) {
        let p = choose|p: int| #[trigger] is_param_start(w, a, p) && zero_weight_at(w, p);
        lemma_ends_left(u, x, p);
        lemma_token_end_bounds(u, p);
        assert(w[p - 1] == u[p - 1]);
        assert(w.subrange(p, token_end(w, p)) == u.subrange(p, token_end(u, p)));
        assert(is_param_start(u, a, p));
    }
    if has_zero_weight(u, a) {
        let p = choose|p: int| #[trigger] is_param_start(u, a, p) && zero_weight_at(u, p);
        lemma_ends_left(u, x, p);
        lemma_token_end_bounds(u, p);
        assert(w[p - 1] == u[p - 1]);
        assert(w.subrange(p, token_end(w, p)) == u.subrange(p, token_end(u, p)));
        assert(is_param_start(w, a, p));
    }
}

/// An item of `x` reads the same in `u , x`, shifted past `u ,`.
proof fn lemma_item_right(u: Seq<u8>, x: Seq<u8>, c: int, name: Seq<u8>)
    requires
        0 <= c <= x.len(),
    ensures
        is_item_start(u + seq![44u8] + x, c + u.len() + 1) == is_item_start(x, c),
        item_names(u + seq![44u8] + x, c + u.len() + 1, name) == item_names(x, c, name),
        has_zero_weight(u + seq![44u8] + x, c + u.len() + 1) == has_zero_weight(x, c),
{
    let w = u + seq![44u8] + x;
    let off = u.len() + 1;
    let a = c + off;
    lemma_ends_right(u, x, a);
    lemma_token_end_bounds(x, c);
    lemma_item_end_bounds(x, c);
    if c > 0 {
        assert(w[a - 1] == x[c - 1]);
    } else {
        assert(w[a - 1] == 44);
    }
    assert(w.subrange(a, token_end(w, a)) == x.subrange(c, token_end(x, c)));
    if has_zero_weight(w, a) {
        let p = choose|p: int| #[trigger] is_param_start(w, a, p) && zero_weight_at(w, p);
        lemma_ends_right(u, x, p);
        lemma_token_end_bounds(x, p - off);
        assert(w[p - 1] == x[p - off - 1]);
        assert(w.subrange(p, token_end(w, p)) == x.subrange(p - off, token_end(x, p - off)));
        assert(is_param_start(x, c, p - off));
    }
    if has_zero_weight(x, c) {
        let q = choose|q: int| #[trigger] is_param_start(x, c, q) && zero_weight_at(x, q);
        lemma_ends_right(u, x, q + off);
        lemma_token_end_bounds(x, q);
        assert(w[q + off - 1] == x[q - 1]);
        assert(w.subrange(q + off, token_end(w, q + off)) == x.subrange(q, token_end(x, q)));
        assert(is_param_start(w, a, q + off));
    }
}

/// The items of `u , x` are those of `u` and those of `x`.
proof fn lemma_join_two(u: Seq<u8>, x: Seq<u8>, name: Seq<u8>)
    ensures
        names_coding(u + seq![44u8] + x, name) == (names_coding(u, name) || names_coding(x, name)),
        lists_coding(u + seq![44u8] + x, name) == (lists_coding(u, name) || lists_coding(x, name)),
        is_header_text(u + seq![44u8] + x) == (is_header_text(u) && is_header_text(x)),
{
    let w = u + seq![44u8] + x;
    let off = u.len() + 1;
    if names_coding(w, name) {
        let b = choose|b: int| 0 <= b < w.len() + 1 && is_item_start(w, b) && #[trigger] item_names(w, b, name);
        if b <= u.len() {
            lemma_item_left(u, x, b, name);
            assert(names_before(u, name, (u.len() + 1) as int));
        } else {
            lemma_item_right(u, x, b - off, name);
            assert(names_before(x, name, (x.len() + 1) as int));
        }
    }
    if lists_coding(w, name) {
        let b = choose|b: int| 0 <= b < w.len() + 1 && is_item_start(w, b) && #[trigger] item_lists(w, b, name);
        if b <= u.len() {
            lemma_item_left(u, x, b, name);
            assert(item_lists(u, b, name));
            assert(lists_before(u, name, (u.len() + 1) as int));
        } else {
            lemma_item_right(u, x, b - off, name);
            assert(item_lists(x, b - off, name));
            assert(lists_before(x, name, (x.len() + 1) as int));
        }
    }
    if names_coding(u, name) {
        let b = choose|b: int| 0 <= b < u.len() + 1 && is_item_start(u, b) && #[trigger] item_names(u, b, name);
        lemma_item_left(u, x, b, name);
        assert(names_before(w, name, (w.len() + 1) as int));
    }
    if lists_coding(u, name) {
        let b = choose|b: int| 0 <= b < u.len() + 1 && is_item_start(u, b) && #[trigger] item_lists(u, b, name);
        lemma_item_left(u, x, b, name);
        assert(item_lists(w, b, name));
        assert(lists_before(w, name, (w.len() + 1) as int));
    }
    if names_coding(x, name) {
        let c = choose|c: int| 0 <= c < x.len() + 1 && is_item_start(x, c) && #[trigger] item_names(x, c, name);
        lemma_item_right(u, x, c, name);
        assert(item_names(w, c + off, name));
        assert(names_before(w, name, (w.len() + 1) as int));
    }
    if lists_coding(x, name) {
        let c = choose|c: int| 0 <= c < x.len() + 1 && is_item_start(x, c) && #[trigger] item_lists(x, c, name);
        lemma_item_right(u, x, c, name);
        assert(item_lists(w, c + off, name));
        assert(lists_before(w, name, (w.len() + 1) as int));
    }
    if is_header_text(w) {
        assert forall|i: int| 0 <= i < u.len() implies is_visible_ascii(#[trigger] u[i]) by {
            assert(w[i] == u[i]);
        }
        assert forall|i: int| 0 <= i < x.len() implies is_visible_ascii(#[trigger] x[i]) by {
            assert(w[i + off] == x[i]);
        }
    }
    if is_header_text(u) && is_header_text(x) {
        assert forall|i: int| 0 <= i < w.len() implies is_visible_ascii(#[trigger] w[i]) by {
            if i < u.len() {
                assert(w[i] == u[i]);
            } else if i > u.len() {
                assert(w[i] == x[i - off]);
            }
        }
    }
}

/// The items of a joined list are those of its parts.
proof fn lemma_join(items: Seq<Seq<u8>>, name: Seq<u8>)
    requires
        name.len() > 0,
    ensures
        names_coding(join_items(items), name) == (exists|i: int| 0 <= i < items.len() && #[trigger] names_coding(items[i], name)),
        lists_coding(join_items(items), name) == (exists|i: int| 0 <= i < items.len() && #[trigger] lists_coding(items[i], name)),
        is_header_text(join_items(items)) == (forall|i: int| 0 <= i < items.len() ==> #[trigger] is_header_text(items[i])),
    decreases items.len(),
{
    if items.len() == 0 {
        let e = Seq::<u8>::empty();
        assert(e.subrange(0, token_end(e, 0)) == e);
        assert(trim_start(e) == e);
        assert(trim_end(e) == e);
        assert(coding_at(e, 0).len() == 0);
        if names_coding(e, name) {
            let b = choose|b: int| 0 <= b < e.len() + 1 && is_item_start(e, b) && #[trigger] item_names(e, b, name);
            assert(b == 0);
        }
        if lists_coding(e, name) {
            let b = choose|b: int| 0 <= b < e.len() + 1 && is_item_start(e, b) && #[trigger] item_lists(e, b, name);
            assert(b == 0);
        }
    } else if items.len() == 1 {
        assert(join_items(items) == items[0]);
    } else {
        let init = items.drop_last();
        lemma_join(init, name);
        lemma_join_two(join_items(init), items.last(), name);
        assert(join_items(items) == join_items(init) + seq![44u8] + items.last());
        let n = items.len() - 1;
        if exists|i: int| 0 <= i < items.len() && #[trigger] names_coding(items[i], name) {
            let i = choose|i: int| 0 <= i < items.len() && #[trigger] names_coding(items[i], name);
            if i < n {
                assert(init[i] == items[i]);
            }
        }
        if exists|i: int| 0 <= i < init.len() && #[trigger] names_coding(init[i], name) {
            let i = choose|i: int| 0 <= i < init.len() && #[trigger] names_coding(init[i], name);
            assert(init[i] == items[i]);
        }
        if exists|i: int| 0 <= i < items.len() && #[trigger] lists_coding(items[i], name) {
            let i = choose|i: int| 0 <= i < items.len() && #[trigger] lists_coding(items[i], name);
            if i < n {
                assert(init[i] == items[i]);
            }
        }
        if exists|i: int| 0 <= i < init.len() && #[trigger] lists_coding(init[i], name) {
            let i = choose|i: int| 0 <= i < init.len() && #[trigger] lists_coding(init[i], name);
            assert(init[i] == items[i]);
        }
        if forall|i: int| 0 <= i < items.len() ==> #[trigger] is_header_text(items[i]) {
            assert forall|i: int| 0 <= i < init.len() implies #[trigger] is_header_text(init[i]) by {
                assert(init[i] == items[i]);
            }
        }
        if is_header_text(join_items(items)) {
            assert forall|i: int| 0 <= i < items.len() implies #[trigger] is_header_text(items[i]) by {
                if i < n {
                    assert(init[i] == items[i]);
                }
            }
        }
    }
}

/// Several `Accept-Encoding` lines that read as text say what one line would
/// that joins them with commas.
pub proof fn law_lines_read_as_one_list(values: Seq<Seq<u8>>)
    requires
        forall|i: int| 0 <= i < values.len() ==> #[trigger] is_header_text(values[i]),
    ensures
        accepts_gzip_spec(values) == accepts_gzip_spec(seq![join_items(values)]),
{
    lemma_join(values, gzip_name());
    lemma_join(values, any_name());
    let one = seq![join_items(values)];
    assert(one[0] == join_items(values));
    if values_list(values, gzip_name()) {
        let i = choose|i: int| 0 <= i < values.len() && is_header_text(values[i]) && #[trigger] lists_coding(values[i], gzip_name());
        assert(values_list(one, gzip_name()));
    }
    if values_list(values, any_name()) {
        let i = choose|i: int| 0 <= i < values.len() && is_header_text(values[i]) && #[trigger] lists_coding(values[i], any_name());
        assert(values_list(one, any_name()));
    }
    if values_name(values, gzip_name()) {
        let i = choose|i: int| 0 <= i < values.len() && is_header_text(values[i]) && #[trigger] names_coding(values[i], gzip_name());
        assert(values_name(one, gzip_name()));
    }
    if values_name(one, gzip_name()) {
        assert(names_coding(one[0], gzip_name()));
    }
    if values_list(one, gzip_name()) {
        assert(lists_coding(one[0], gzip_name()));
    }
    if values_list(one, any_name()) {
        assert(lists_coding(one[0], any_name()));
    }
}

/// Whether a request accepts gzip does not depend on the order of the items
/// in its `Accept-Encoding` list.
pub proof fn law_item_order_irrelevant(items: Seq<Seq<u8>>, reordered: Seq<Seq<u8>>)
    requires
        reordered.to_multiset() == items.to_multiset(),
    ensures
        accepts_gzip_spec(seq![join_items(items)]) == accepts_gzip_spec(seq![join_items(reordered)]),
{
    broadcast use vstd::seq_lib::group_to_multiset_ensures;

    lemma_join(items, gzip_name());
    lemma_join(items, any_name());
    lemma_join(reordered, gzip_name());
    lemma_join(reordered, any_name());
    assert forall|e: Seq<u8>| items.contains(e) <==> reordered.contains(e) by {
        assert(items.contains(e) <==> items.to_multiset().count(e) > 0);
        assert(reordered.contains(e) <==> reordered.to_multiset().count(e) > 0);
    }
    let one = seq![join_items(items)];
    let two = seq![join_items(reordered)];
    assert(one[0] == join_items(items));
    assert(two[0] == join_items(reordered));
    assert(is_header_text(one[0]) == is_header_text(two[0])) by {
        if is_header_text(one[0]) {
            assert forall|i: int| 0 <= i < reordered.len() implies #[trigger] is_header_text(reordered[i]) by {
                assert(reordered.contains(reordered[i]));
                let j = choose|j: int| 0 <= j < items.len() && items[j] == reordered[i];
                assert(is_header_text(items[j]));
            }
        }
        if is_header_text(two[0]) {
            assert forall|i: int| 0 <= i < items.len() implies #[trigger] is_header_text(items[i]) by {
                assert(items.contains(items[i]));
                let j = choose|j: int| 0 <= j < reordered.len() && reordered[j] == items[i];
                assert(is_header_text(reordered[j]));
            }
        }
    }
    assert forall|name: Seq<u8>| name == gzip_name() || name == any_name() implies
        lists_coding(one[0], name) == lists_coding(two[0], name) && names_coding(one[0], name) == names_coding(two[0], name) by {
        lemma_join(items, name);
        lemma_join(reordered, name);
        if lists_coding(one[0], name) {
            let i = choose|i: int| 0 <= i < items.len() && #[trigger] lists_coding(items[i], name);
            assert(items.contains(items[i]));
            let j = choose|j: int| 0 <= j < reordered.len() && reordered[j] == items[i];
            assert(lists_coding(reordered[j], name));
        }
        if lists_coding(two[0], name) {
            let i = choose|i: int| 0 <= i < reordered.len() && #[trigger] lists_coding(reordered[i], name);
            assert(reordered.contains(reordered[i]));
            let j = choose|j: int| 0 <= j < items.len() && items[j] == reordered[i];
            assert(lists_coding(items[j], name));
        }
        if names_coding(one[0], name) {
            let i = choose|i: int| 0 <= i < items.len() && #[trigger] names_coding(items[i], name);
            assert(items.contains(items[i]));
            let j = choose|j: int| 0 <= j < reordered.len() && reordered[j] == items[i];
            assert(names_coding(reordered[j], name));
        }
        if names_coding(two[0], name) {
            let i = choose|i: int| 0 <= i < reordered.len() && #[trigger] names_coding(reordered[i], name);
            assert(reordered.contains(reordered[i]));
            let j = choose|j: int| 0 <= j < items.len() && items[j] == reordered[i];
            assert(names_coding(items[j], name));
        }
    }
    assert(lists_coding(one[0], gzip_name()) == lists_coding(two[0], gzip_name()));
    assert(lists_coding(one[0], any_name()) == lists_coding(two[0], any_name()));
    assert(names_coding(one[0], gzip_name()) == names_coding(two[0], gzip_name()));
    if values_list(one, gzip_name()) {
        assert(values_list(two, gzip_name()));
    }
    if values_list(two, gzip_name()) {
        assert(values_list(one, gzip_name()));
    }
    if values_list(one, any_name()) {
        assert(values_list(two, any_name()));
    }
    if values_list(two, any_name()) {
        assert(values_list(one, any_name()));
    }
    if values_name(one, gzip_name()) {
        assert(values_name(two, gzip_name()));
    }
    if values_name(two, gzip_name()) {
        assert(values_name(one, gzip_name()));
    }
}


/// A header value reads as text exactly when each of its bytes is a visible
/// ASCII character (`!` to `~`), a space or a tab: every such byte is
/// accepted, whatever the character.
pub proof fn law_text_is_visible_ascii(v: Seq<u8>)
    ensures
        is_header_text(v) <==> forall|i: int| 0 <= i < v.len() ==> (32 <= #[trigger] v[i] <= 126 || v[i] == 9),
{
}

/// The item `gzip` on its own lists gzip, and the value `gzip` reads as text.
proof fn lemma_gzip_item()
    ensures
        is_header_text(gzip_name()),
        lists_coding(gzip_name(), gzip_name()),
        names_coding(gzip_name(), gzip_name()),
        !lists_coding(gzip_name(), any_name()),
{
    let g = gzip_name();
    reveal_with_fuel(token_end, 6);
    reveal_with_fuel(item_end, 6);
    assert(token_end(g, 0) == 4);
    assert(item_end(g, 0) == 4);
    assert(g.subrange(0, 4) =~= g);
    assert(trim_start(g) == g);
    assert(trim_end(g) == g);
    assert(lower(g) =~= g);
    assert(coding_at(g, 0) == g);
    assert(!has_zero_weight(g, 0));
    assert(item_lists(g, 0, g));
    assert(lists_before(g, g, 5));
    assert(names_before(g, g, 5));
    assert forall|b: int| 0 <= b < 5 && is_item_start(g, b) implies !#[trigger] item_lists(g, b, any_name()) by {
        assert(b == 0);
        assert(coding_at(g, 0) != any_name());
    }
}

/// The item `gzip;q=0` names gzip but refuses it, and reads as text.
proof fn lemma_refused_gzip_item()
    ensures
        is_header_text(seq![103u8, 122u8, 105u8, 112u8, 59u8, 113u8, 61u8, 48u8]),
        names_coding(seq![103u8, 122u8, 105u8, 112u8, 59u8, 113u8, 61u8, 48u8], gzip_name()),
        !lists_coding(seq![103u8, 122u8, 105u8, 112u8, 59u8, 113u8, 61u8, 48u8], gzip_name()),
        !lists_coding(seq![103u8, 122u8, 105u8, 112u8, 59u8, 113u8, 61u8, 48u8], any_name()),
{
    let z = seq![103u8, 122u8, 105u8, 112u8, 59u8, 113u8, 61u8, 48u8];
    let g = gzip_name();
    reveal_with_fuel(token_end, 6);
    reveal_with_fuel(item_end, 10);
    assert(token_end(z, 0) == 4);
    assert(token_end(z, 5) == 8);
    assert(item_end(z, 0) == 8);
    assert(z.subrange(0, 4) =~= g);
    assert(trim_start(g) == g);
    assert(trim_end(g) == g);
    assert(lower(g) =~= g);
    assert(item_names(z, 0, g));
    let q = z.subrange(5, 8);
    assert(q =~= seq![113u8, 61u8, 48u8]);
    assert(trim_start(q) == q);
    assert(trim_end(q) == q);
    assert(is_zero_weight(q));
    assert(is_param_start(z, 0, 5));
    assert(zero_weight_at(z, 5));
    assert(has_zero_weight(z, 0));
    assert(names_before(z, g, 9));
    assert forall|b: int| 0 <= b < 9 && is_item_start(z, b) implies !#[trigger] item_lists(z, b, g) by {
        assert(b == 0);
    }
    assert forall|b: int| 0 <= b < 9 && is_item_start(z, b) implies !#[trigger] item_lists(z, b, any_name()) by {
        assert(b == 0);
        assert(coding_at(z, 0) == g);
    }
}

/// A text value in which `gzip` stands as an item of its own, between any
/// other text items, accepts gzip, whatever those other items are.
pub proof fn law_listed_gzip_is_accepted(before: Seq<u8>, after: Seq<u8>)
    requires
        is_header_text(before),
        is_header_text(after),
    ensures
        accepts_gzip_spec(seq![before + seq![44u8] + gzip_name() + seq![44u8] + after]),
{
    lemma_gzip_item();
    let w1 = before + seq![44u8] + gzip_name();
    lemma_join_two(before, gzip_name(), gzip_name());
    lemma_join_two(w1, after, gzip_name());
    let one = seq![w1 + seq![44u8] + after];
    assert(one[0] == w1 + seq![44u8] + after);
    assert(lists_coding(one[0], gzip_name()));
    assert(values_list(one, gzip_name()));
}

/// Adding the item `gzip;q=0` to a text value refuses gzip unless another
/// item lists it with a weight other than zero; `*` no longer stands for it.
pub proof fn law_zero_weight_refuses_gzip(v: Seq<u8>)
    requires
        is_header_text(v),
    ensures
        accepts_gzip_spec(seq![v + seq![44u8] + seq![103u8, 122u8, 105u8, 112u8, 59u8, 113u8, 61u8, 48u8]])
            == lists_coding(v, gzip_name()),
{
    let z = seq![103u8, 122u8, 105u8, 112u8, 59u8, 113u8, 61u8, 48u8];
    lemma_refused_gzip_item();
    lemma_join_two(v, z, gzip_name());
    lemma_join_two(v, z, any_name());
    let one = seq![v + seq![44u8] + z];
    assert(one[0] == v + seq![44u8] + z);
    assert(values_name(one, gzip_name()));
    if values_list(one, gzip_name()) {
        assert(lists_coding(one[0], gzip_name()));
    }
    if lists_coding(v, gzip_name()) {
        assert(lists_coding(one[0], gzip_name()));
        assert(values_list(one, gzip_name()));
    }
}


/// A value with a single item, holding no `,` or `;`, lists the coding its
/// trimmed lower-case text names.
proof fn lemma_single_item(t: Seq<u8>, name: Seq<u8>)
    requires
        forall|j: int| 0 <= j < t.len() ==> #[trigger] t[j] != 44 && t[j] != 59,
        lower(trim(t)) == name,
    ensures
        lists_coding(t, name),
        names_coding(t, name),
{
    lemma_token_end_bounds(t, 0);
    lemma_item_end_bounds(t, 0);
    assert(token_end(t, 0) == t.len());
    assert(item_end(t, 0) == t.len());
    assert(t.subrange(0, t.len() as int) =~= t);
    assert(!has_zero_weight(t, 0));
    assert(item_lists(t, 0, name));
    assert(lists_before(t, name, (t.len() + 1) as int));
    assert(names_before(t, name, (t.len() + 1) as int));
}

/// `gzip` in upper case, or padded with spaces and tabs, or with a weight
/// other than zero, lists gzip.
proof fn lemma_gzip_spellings()
    ensures
        is_header_text(seq![71u8, 90u8, 73u8, 80u8]),
        lists_coding(seq![71u8, 90u8, 73u8, 80u8], gzip_name()),
        is_header_text(seq![32u8, 103u8, 122u8, 105u8, 112u8, 9u8]),
        lists_coding(seq![32u8, 103u8, 122u8, 105u8, 112u8, 9u8], gzip_name()),
        is_header_text(seq![103u8, 122u8, 105u8, 112u8, 59u8, 113u8, 61u8, 48u8, 46u8, 53u8]),
        lists_coding(seq![103u8, 122u8, 105u8, 112u8, 59u8, 113u8, 61u8, 48u8, 46u8, 53u8], gzip_name()),
{
    let g = gzip_name();
    let upper = seq![71u8, 90u8, 73u8, 80u8];
    assert(trim_start(upper) == upper);
    assert(trim_end(upper) == upper);
    assert(lower(upper) =~= g);
    lemma_single_item(upper, g);
    let padded = seq![32u8, 103u8, 122u8, 105u8, 112u8, 9u8];
    assert(padded.drop_first() =~= seq![103u8, 122u8, 105u8, 112u8, 9u8]);
    assert(trim_start(seq![103u8, 122u8, 105u8, 112u8, 9u8]) == seq![103u8, 122u8, 105u8, 112u8, 9u8]);
    assert(trim_start(padded) == seq![103u8, 122u8, 105u8, 112u8, 9u8]);
    assert(seq![103u8, 122u8, 105u8, 112u8, 9u8].drop_last() =~= g);
    assert(trim_end(g) == g);
    assert(trim_end(seq![103u8, 122u8, 105u8, 112u8, 9u8]) == g);
    assert(lower(g) =~= g);
    lemma_single_item(padded, g);
    let weighted = seq![103u8, 122u8, 105u8, 112u8, 59u8, 113u8, 61u8, 48u8, 46u8, 53u8];
    reveal_with_fuel(token_end, 7);
    reveal_with_fuel(item_end, 12);
    assert(token_end(weighted, 0) == 4);
    assert(item_end(weighted, 0) == 10);
    assert(weighted.subrange(0, 4) =~= g);
    assert(trim_start(g) == g);
    assert(item_names(weighted, 0, g));
    assert(token_end(weighted, 5) == 10);
    let q = weighted.subrange(5, 10);
    assert(q =~= seq![113u8, 61u8, 48u8, 46u8, 53u8]);
    assert(trim_start(q) == q);
    assert(trim_end(q) == q);
    assert(!is_zero_weight(q)) by {
        assert(q[4] == 53);
    }
    assert forall|p: int| #[trigger] is_param_start(weighted, 0, p) implies !zero_weight_at(weighted, p) by {
        if p != 5 {
            assert(weighted[p - 1] != 59);
        }
    }
    assert(item_lists(weighted, 0, g));
    assert(lists_before(weighted, g, 11));
}

/// Coding names ignore ASCII case and the spaces and tabs around them, and a
/// weight other than zero keeps a coding: `GZIP`, ` gzip<tab>` and
/// `gzip;q=0.5` each accept gzip, between any other text items.
pub proof fn law_gzip_spellings_are_accepted(before: Seq<u8>, after: Seq<u8>)
    requires
        is_header_text(before),
        is_header_text(after),
    ensures
        accepts_gzip_spec(seq![before + seq![44u8] + seq![71u8, 90u8, 73u8, 80u8] + seq![44u8] + after]),
        accepts_gzip_spec(seq![before + seq![44u8] + seq![32u8, 103u8, 122u8, 105u8, 112u8, 9u8] + seq![44u8] + after]),
        accepts_gzip_spec(
            seq![before + seq![44u8] + seq![103u8, 122u8, 105u8, 112u8, 59u8, 113u8, 61u8, 48u8, 46u8, 53u8] + seq![44u8] + after],
        ),
{
    lemma_gzip_spellings();
    let items = seq![
        seq![71u8, 90u8, 73u8, 80u8],
        seq![32u8, 103u8, 122u8, 105u8, 112u8, 9u8],
        seq![103u8, 122u8, 105u8, 112u8, 59u8, 113u8, 61u8, 48u8, 46u8, 53u8],
    ];
    assert forall|k: int| 0 <= k < 3 implies accepts_gzip_spec(
        seq![before + seq![44u8] + #[trigger] items[k] + seq![44u8] + after],
    ) by {
        let t = items[k];
        let w1 = before + seq![44u8] + t;
        lemma_join_two(before, t, gzip_name());
        lemma_join_two(w1, after, gzip_name());
        let one = seq![w1 + seq![44u8] + after];
        assert(one[0] == w1 + seq![44u8] + after);
        assert(lists_coding(one[0], gzip_name()));
        assert(values_list(one, gzip_name()));
    }
    assert(items[0] == seq![71u8, 90u8, 73u8, 80u8]);
    assert(items[1] == seq![32u8, 103u8, 122u8, 105u8, 112u8, 9u8]);
    assert(items[2] == seq![103u8, 122u8, 105u8, 112u8, 59u8, 113u8, 61u8, 48u8, 46u8, 53u8]);
}

/// `*` accepts gzip when no text value names gzip.
pub proof fn law_any_coding_accepts_unnamed_gzip(v: Seq<u8>)
    requires
        is_header_text(v),
        !names_coding(v, gzip_name()),
    ensures
        accepts_gzip_spec(seq![v + seq![44u8] + seq![42u8]]),
{
    let star = seq![42u8];
    assert(trim_start(star) == star);
    assert(trim_end(star) == star);
    assert(lower(star) =~= any_name());
    lemma_single_item(star, any_name());
    assert(star.drop_first().len() == 0);
    assert(lower(trim(star)) != gzip_name());
    if names_coding(star, gzip_name()) {
        let b = choose|b: int| 0 <= b < 2 && is_item_start(star, b) && #[trigger] item_names(star, b, gzip_name());
        assert(b == 0);
        lemma_token_end_bounds(star, 0);
        assert(token_end(star, 0) == 1);
        assert(star.subrange(0, 1) =~= star);
    }
    lemma_join_two(v, star, gzip_name());
    lemma_join_two(v, star, any_name());
    let one = seq![v + seq![44u8] + star];
    assert(one[0] == v + seq![44u8] + star);
    assert(is_header_text(star));
    assert(lists_coding(one[0], any_name()));
    assert(values_list(one, any_name()));
    if values_name(one, gzip_name()) {
        assert(names_coding(one[0], gzip_name()));
    }
}

/// A header line that does not read as text changes nothing.
pub proof fn law_unreadable_line_is_skipped(values: Seq<Seq<u8>>, v: Seq<u8>)
    requires
        !is_header_text(v),
    ensures
        accepts_gzip_spec(values.push(v)) == accepts_gzip_spec(values),
{
    let w = values.push(v);
    assert forall|name: Seq<u8>| name == gzip_name() || name == any_name() implies
        values_list(w, name) == values_list(values, name) && values_name(w, name) == values_name(values, name) by {
        if values_list(w, name) {
            let j = choose|j: int| 0 <= j < w.len() && is_header_text(w[j]) && #[trigger] lists_coding(w[j], name);
            assert(j < values.len());
            assert(w[j] == values[j]);
        }
        if values_list(values, name) {
            let j = choose|j: int| 0 <= j < values.len() && is_header_text(values[j]) && #[trigger] lists_coding(values[j], name);
            assert(w[j] == values[j]);
        }
        if values_name(w, name) {
            let j = choose|j: int| 0 <= j < w.len() && is_header_text(w[j]) && #[trigger] names_coding(w[j], name);
            assert(j < values.len());
            assert(w[j] == values[j]);
        }
        if values_name(values, name) {
            let j = choose|j: int| 0 <= j < values.len() && is_header_text(values[j]) && #[trigger] names_coding(values[j], name);
            assert(w[j] == values[j]);
        }
    }
}

/// `gzip; Q=0.00` refuses gzip as `gzip;q=0` does: a space after `;`, an
/// upper-case `Q` and trailing zeros still make a weight of zero.
pub proof fn law_zero_weight_spellings(v: Seq<u8>)
    requires
        is_header_text(v),
    ensures
        accepts_gzip_spec(
            seq![v + seq![44u8] + seq![103u8, 122u8, 105u8, 112u8, 59u8, 32u8, 81u8, 61u8, 48u8, 46u8, 48u8, 48u8]],
        ) == lists_coding(v, gzip_name()),
{
    let z = seq![103u8, 122u8, 105u8, 112u8, 59u8, 32u8, 81u8, 61u8, 48u8, 46u8, 48u8, 48u8];
    let g = gzip_name();
    reveal_with_fuel(token_end, 9);
    reveal_with_fuel(item_end, 14);
    assert(token_end(z, 0) == 4);
    assert(token_end(z, 5) == 12);
    assert(item_end(z, 0) == 12);
    assert(z.subrange(0, 4) =~= g);
    assert(trim_start(g) == g);
    assert(trim_end(g) == g);
    assert(lower(g) =~= g);
    assert(item_names(z, 0, g));
    let q = z.subrange(5, 12);
    let qt = seq![81u8, 61u8, 48u8, 46u8, 48u8, 48u8];
    assert(q.drop_first() =~= qt);
    assert(trim_start(qt) == qt);
    assert(trim_start(q) == qt);
    assert(trim_end(qt) == qt);
    assert(is_zero_weight(qt));
    assert(is_param_start(z, 0, 5));
    assert(zero_weight_at(z, 5));
    assert(has_zero_weight(z, 0));
    assert(names_before(z, g, 13));
    assert forall|b: int| 0 <= b < 13 && is_item_start(z, b) implies !#[trigger] item_lists(z, b, g) by {
        assert(b == 0);
    }
    assert forall|b: int| 0 <= b < 13 && is_item_start(z, b) implies !#[trigger] item_lists(z, b, any_name()) by {
        assert(b == 0);
        assert(coding_at(z, 0) == g);
    }
    assert(is_header_text(z));
    lemma_join_two(v, z, gzip_name());
    lemma_join_two(v, z, any_name());
    let one = seq![v + seq![44u8] + z];
    assert(one[0] == v + seq![44u8] + z);
    assert(values_name(one, gzip_name()));
    if values_list(one, gzip_name()) {
        assert(lists_coding(one[0], gzip_name()));
    }
    if lists_coding(v, gzip_name()) {
        assert(lists_coding(one[0], gzip_name()));
        assert(values_list(one, gzip_name()));
    }
}

} // verus!
