//! The public relay's rules. Host and clients both dial out to the relay;
//! the first line a connection sends is `HOST|<code>` or `JOIN|<code>`, the
//! relay answers `OK|HOST`, `OK|CLIENT|<id>` or `FAIL|<reason>`, and from
//! then on every line is passed to everyone else in the room. This module
//! holds the hello-line parsing, the room table and the reply lines; the
//! sockets and threads live at the program's edge.

use vstd::prelude::*;
use vstd::string::{StrSliceExecFns, StringExecFns};
use crate::text::{decimal, push_char, push_decimal, push_str, str_eq};

verus! {

// ---------------------------------------------------------------------------
// The hello line

/// Unicode `White_Space`, what `char::is_whitespace` tests.
pub open spec fn is_ws(c: char) -> bool {
    ||| ('\u{9}' <= c && c <= '\u{d}')
    ||| c == ' '
    ||| c == '\u{85}'
    ||| c == '\u{a0}'
    ||| c == '\u{1680}'
    ||| ('\u{2000}' <= c && c <= '\u{200a}')
    ||| c == '\u{2028}'
    ||| c == '\u{2029}'
    ||| c == '\u{202f}'
    ||| c == '\u{205f}'
    ||| c == '\u{3000}'
}

/// Whether `c` has the Unicode `White_Space` property, as
/// `char::is_whitespace` tests.
fn char_is_whitespace(c: char) -> (r: bool)
    ensures
        r == is_ws(c),
{
    ('\u{9}' <= c && c <= '\u{d}') || c == ' ' || c == '\u{85}' || c == '\u{a0}' || c == '\u{1680}'
        || ('\u{2000}' <= c && c <= '\u{200a}') || c == '\u{2028}' || c == '\u{2029}' || c == '\u{202f}'
        || c == '\u{205f}' || c == '\u{3000}'
}

/// Leading whitespace dropped.
pub open spec fn trim_start(s: Seq<char>) -> Seq<char>
    decreases s.len(),
{
    if s.len() > 0 && is_ws(s[0]) {
        trim_start(s.drop_first())
    } else {
        s
    }
}

/// Trailing whitespace dropped.
pub open spec fn trim_end(s: Seq<char>) -> Seq<char>
    decreases s.len(),
{
    if s.len() > 0 && is_ws(s.last()) {
        trim_end(s.drop_last())
    } else {
        s
    }
}

/// `str::trim`: whitespace dropped at both ends.
pub open spec fn trim(s: Seq<char>) -> Seq<char> {
    trim_end(trim_start(s))
}

proof fn lemma_trim_start_at(s: Seq<char>, a: int)
    requires
        0 <= a <= s.len(),
        forall|i: int| 0 <= i < a ==> is_ws(s[i]),
        a == s.len() || !is_ws(s[a]),
    ensures
        trim_start(s) == s.subrange(a, s.len() as int),
    decreases a,
{
    if a > 0 {
        lemma_trim_start_at(s.drop_first(), a - 1);
        assert(s.drop_first().subrange(a - 1, s.len() - 1) =~= s.subrange(a, s.len() as int));
    } else {
        assert(s.subrange(0, s.len() as int) =~= s);
    }
}

proof fn lemma_trim_end_at(s: Seq<char>, b: int)
    requires
        0 <= b <= s.len(),
        forall|i: int| b <= i < s.len() ==> is_ws(s[i]),
        b == 0 || !is_ws(s[b - 1]),
    ensures
        trim_end(s) == s.subrange(0, b),
    decreases s.len() - b,
{
    if b < s.len() {
        lemma_trim_end_at(s.drop_last(), b);
        assert(s.drop_last().subrange(0, b) =~= s.subrange(0, b));
    } else {
        assert(s.subrange(0, b) =~= s);
    }
}

/// `str::trim`, as an owned string.
pub fn trim_text(s: &str) -> (r: String)
    ensures
        r@ == trim(s@),
{
    let n = s.unicode_len();
    let mut a: usize = 0;
    while a < n && char_is_whitespace(s.get_char(a))
        invariant
            n == s@.len(),
            a <= n,
            forall|i: int| 0 <= i < a ==> is_ws(s@[i]),
        decreases n - a,
    {
        a += 1;
    }
    let mut b: usize = n;
    while b > a && char_is_whitespace(s.get_char(b - 1))
        invariant
            n == s@.len(),
            a <= b <= n,
            forall|i: int| b <= i < n ==> is_ws(s@[i]),
        decreases b - a,
    {
        b -= 1;
    }
    proof {
        lemma_trim_start_at(s@, a as int);
        let t = s@.subrange(a as int, n as int);
        assert forall|i: int| b - a <= i < t.len() implies is_ws(t[i]) by {
            assert(t[i] == s@[a + i]);
        }
        if b > a {
            assert(t[b - a - 1] == s@[b - 1]);
        }
        lemma_trim_end_at(t, b - a);
        assert(t.subrange(0, b - a) =~= s@.subrange(a as int, b as int));
    }
    String::from_str(s.substring_char(a, b))
}

/// Position of the first `|`, if any.
pub open spec fn first_bar(s: Seq<char>) -> Option<int> {
    if exists|i: int| 0 <= i < s.len() && s[i] == '|' {
        Some(choose|i: int| 0 <= i < s.len() && s[i] == '|' && forall|j: int| 0 <= j < i ==> s[j] != '|')
    } else {
        None
    }
}

/// The first `|`-separated field.
pub open spec fn head_field(s: Seq<char>) -> Seq<char> {
    match first_bar(s) {
        Some(i) => s.subrange(0, i),
        None => s,
    }
}

/// The text after the first `|` (meaningful when there is one).
pub open spec fn after_bar(s: Seq<char>) -> Seq<char> {
    match first_bar(s) {
        Some(i) => s.subrange(i + 1, s.len() as int),
        None => Seq::empty(),
    }
}

/// What a connection asks for.
#[derive(Clone, Copy, PartialEq, Eq, Debug, Structural)]
pub enum Role {
    Host,
    Join,
    /// Anything else; refused as `bad_role`.
    Other,
}

/// Why a hello line is refused before the connection gets an id.
#[derive(Clone, Copy, PartialEq, Eq, Debug, Structural)]
pub enum HelloError {
    /// Fewer than two `|`-separated fields.
    BadHello,
    /// The code is not 4 to 12 ASCII letters and digits.
    BadCode,
}

pub open spec fn is_alnum(c: char) -> bool {
    ('0' <= c && c <= '9') || ('A' <= c && c <= 'Z') || ('a' <= c && c <= 'z')
}

/// A room code: 4 to 12 ASCII letters and digits.
pub open spec fn valid_code(c: Seq<char>) -> bool {
    4 <= c.len() <= 12 && forall|i: int| 0 <= i < c.len() ==> is_alnum(#[trigger] c[i])
}

pub open spec fn upper(c: char) -> char {
    if 'a' <= c && c <= 'z' {
        ((c as u32) - 32) as char
    } else {
        c
    }
}

/// ASCII upper case.
pub open spec fn upper_text(s: Seq<char>) -> Seq<char> {
    s.map_values(|c: char| upper(c))
}

pub open spec fn role_of(r: Seq<char>) -> Role {
    if r == "HOST"@ {
        Role::Host
    } else if r == "JOIN"@ {
        Role::Join
    } else {
        Role::Other
    }
}

/// Upper case of ASCII letters and digits, as `str::to_uppercase` gives it
/// there: letters `a`–`z` become `A`–`Z`, digits and capitals stay.
fn str_to_uppercase(s: &str) -> (r: String)
    requires
        forall|i: int| 0 <= i < s@.len() ==> is_alnum(#[trigger] s@[i]),
    ensures
        r@ == upper_text(s@),
{
    let n = s.unicode_len();
    let mut r = String::new();
    let mut i: usize = 0;
    while i < n
        invariant
            n == s@.len(),
            i <= n,
            forall|k: int| 0 <= k < s@.len() ==> is_alnum(#[trigger] s@[k]),
            r@ == upper_text(s@.take(i as int)),
        decreases n - i,
    {
        let c = s.get_char(i);
        let u = if 'a' <= c && c <= 'z' {
            let b: u8 = (c as u8) - 32;
            b as char
        } else {
            c
        };
        assert(u == upper(c)) by {
            if 'a' <= c && c <= 'z' {
                assert((c as u8) as u32 == c as u32);
            }
        }
        push_char(&mut r, u);
        assert(r@ =~= upper_text(s@.take(i + 1)));
        i += 1;
    }
    assert(s@.take(n as int) =~= s@);
    r
}

/// The hello line read: trimmed, split at `|`; the first field is the role
/// and the second, trimmed, the room code, which is then upper-cased.
pub open spec fn hello_of(line: Seq<char>) -> Result<(Role, Seq<char>), HelloError> {
    let t = trim(line);
    if first_bar(t) is None {
        Err(HelloError::BadHello)
    } else {
        let code = trim(head_field(after_bar(t)));
        if !valid_code(code) {
            Err(HelloError::BadCode)
        } else {
            Ok((role_of(head_field(t)), upper_text(code)))
        }
    }
}

/// Split at the first `|`: the field before it, and whether one was found,
/// with the position just after it.
pub(crate) fn split_bar(s: &str) -> (r: (usize, bool))
    ensures
        r.1 <==> first_bar(s@) is Some,
        r.1 ==> first_bar(s@) == Some(r.0 as int) && r.0 < s@.len(),
        !r.1 ==> r.0 == s@.len(),
{
    let n = s.unicode_len();
    let mut i: usize = 0;
    while i < n
        invariant
            n == s@.len(),
            i <= n,
            forall|j: int| 0 <= j < i ==> s@[j] != '|',
        decreases n - i,
    {
        if s.get_char(i) == '|' {
            proof {
                let w = choose|k: int| 0 <= k < s@.len() && s@[k] == '|' && forall|j: int| 0 <= j < k ==> s@[j] != '|';
                if w < i {
                    assert(s@[w] != '|');
                } else if w > i {
                    assert(s@[i as int] != '|');
                }
            }
            return (i, true);
        }
        i += 1;
    }
    (n, false)
}

/// Read a hello line (`HOST|<code>` or `JOIN|<code>`).
#[verifier::spinoff_prover]
#[verifier::rlimit(30)]
pub fn parse_hello(line: &str) -> (r: Result<(Role, String), HelloError>)
    ensures
        match r {
            Ok((role, code)) => hello_of(line@) == Ok::<(Role, Seq<char>), HelloError>((role, code@)),
            Err(e) => hello_of(line@) == Err::<(Role, Seq<char>), HelloError>(e),
        },
{
    let t = trim_text(line);
    let (i, found) = split_bar(t.as_str());
    if !found {
        return Err(HelloError::BadHello);
    }
    let n = t.as_str().unicode_len();
    let role_text = t.as_str().substring_char(0, i);
    let rest = t.as_str().substring_char(i + 1, n);
    proof {
        assert(role_text@ == head_field(t@));
        assert(rest@ == after_bar(t@));
    }
    let (j, _) = split_bar(rest);
    let field = rest.substring_char(0, j);
    proof {
        assert(field@ =~= head_field(rest@));
    }
    let code = trim_text(field);
    let m = code.as_str().unicode_len();
    if m < 4 || m > 12 {
        return Err(HelloError::BadCode);
    }
    let mut k: usize = 0;
    while k < m
        invariant
            m == code@.len(),
            4 <= m <= 12,
            k <= m,
            forall|q: int| 0 <= q < k ==> is_alnum(#[trigger] code@[q]),
            t@ == trim(line@),
            first_bar(t@) is Some,
            code@ == trim(head_field(after_bar(t@))),
        decreases m - k,
    {
        let c = code.as_str().get_char(k);
        if !(('0' <= c && c <= '9') || ('A' <= c && c <= 'Z') || ('a' <= c && c <= 'z')) {
            assert(!is_alnum(code@[k as int]));
            return Err(HelloError::BadCode);
        }
        k += 1;
    }
    let up = str_to_uppercase(code.as_str());
    let role = if str_eq(role_text, "HOST") {
        Role::Host
    } else if str_eq(role_text, "JOIN") {
        Role::Join
    } else {
        Role::Other
    };
    Ok((role, up))
}

/// The trailing `\r` and `\n` characters dropped.
pub open spec fn strip_eol(s: Seq<char>) -> Seq<char>
    decreases s.len(),
{
    if s.len() > 0 && (s.last() == '\r' || s.last() == '\n') {
        strip_eol(s.drop_last())
    } else {
        s
    }
}

/// A line read after the hello: passed on without its line ending; an
/// empty one is dropped.
pub fn relay_text(buf: &str) -> (r: Option<String>)
    ensures
        strip_eol(buf@).len() == 0 <==> r is None,
        r matches Some(m) ==> m@ == strip_eol(buf@),
{
    let mut b = buf.unicode_len();
    assert(buf@.subrange(0, b as int) =~= buf@);
    while b > 0 && (buf.get_char(b - 1) == '\r' || buf.get_char(b - 1) == '\n')
        invariant
            b <= buf@.len(),
            strip_eol(buf@) == strip_eol(buf@.subrange(0, b as int)),
        decreases b,
    {
        proof {
            let s = buf@.subrange(0, b as int);
            assert(s.drop_last() =~= buf@.subrange(0, b - 1));
        }
        b -= 1;
    }
    proof {
        let s = buf@.subrange(0, b as int);
        if b > 0 {
            assert(s.last() == buf@[b - 1]);
        }
    }
    if b == 0 {
        return None;
    }
    Some(String::from_str(buf.substring_char(0, b)))
}

// ---------------------------------------------------------------------------
// Reply lines

/// `FAIL|<reason>`.
pub fn fail_line(reason: &str) -> (r: String)
    ensures
        r@ == "FAIL|"@ + reason@,
{
    let mut s = String::from_str("FAIL|");
    push_str(&mut s, reason);
    s
}

/// The refusal for a bad hello line.
pub fn hello_error_line(e: HelloError) -> (r: String)
    ensures
        r@ == "FAIL|"@ + match e {
            HelloError::BadHello => "bad_hello"@,
            HelloError::BadCode => "bad_code"@,
        },
{
    match e {
        HelloError::BadHello => fail_line("bad_hello"),
        HelloError::BadCode => fail_line("bad_code"),
    }
}

/// `OK|CLIENT|<id>`.
pub fn client_ok_line(id: u32) -> (r: String)
    ensures
        r@ == "OK|CLIENT|"@ + decimal(id as nat),
{
    let mut s = String::from_str("OK|CLIENT|");
    push_decimal(&mut s, id as u64);
    s
}

/// `INFO|<event>|<id>`, as sent to the room when someone joins or leaves.
pub fn info_line(event: &str, id: u32) -> (r: String)
    ensures
        r@ == "INFO|"@ + event@ + "|"@ + decimal(id as nat),
{
    let mut s = String::from_str("INFO|");
    push_str(&mut s, event);
    push_str(&mut s, "|");
    push_decimal(&mut s, id as u64);
    s
}

// ---------------------------------------------------------------------------
// The room table

/// Members of a room without `id`, in order.
pub open spec fn without(s: Seq<u32>, id: u32) -> Seq<u32>
    decreases s.len(),
{
    if s.len() == 0 {
        s
    } else if s.last() == id {
        without(s.drop_last(), id)
    } else {
        without(s.drop_last(), id).push(s.last())
    }
}

/// Every room has someone in it.
pub open spec fn rooms_nonempty(m: Map<Seq<char>, Seq<u32>>) -> bool {
    forall|c: Seq<char>| m.dom().contains(c) ==> #[trigger] m[c].len() > 0
}

/// Hosting a code: refused while a room under it has members, otherwise a
/// fresh room with the host alone.
pub open spec fn host_ok(m: Map<Seq<char>, Seq<u32>>, code: Seq<char>) -> bool {
    !(m.dom().contains(code) && m[code].len() > 0)
}

/// Leaving a room: the member is dropped, and an emptied room goes away.
pub open spec fn after_leave(m: Map<Seq<char>, Seq<u32>>, code: Seq<char>, id: u32) -> Map<Seq<char>, Seq<u32>> {
    if m.dom().contains(code) {
        if without(m[code], id).len() == 0 {
            m.remove(code)
        } else {
            m.insert(code, without(m[code], id))
        }
    } else {
        m
    }
}

/// Who hears a message from `from` in room `code`: everyone else in it.
pub open spec fn hearers(m: Map<Seq<char>, Seq<u32>>, code: Seq<char>, from: u32) -> Seq<u32> {
    if m.dom().contains(code) {
        without(m[code], from)
    } else {
        Seq::empty()
    }
}

proof fn lemma_without_absent(s: Seq<u32>, id: u32)
    requires
        !s.contains(id),
    ensures
        without(s, id) == s,
    decreases s.len(),
{
    if s.len() > 0 {
        assert(!s.drop_last().contains(id)) by {
            if s.drop_last().contains(id) {
                let k = choose|k: int| 0 <= k < s.drop_last().len() && s.drop_last()[k] == id;
                assert(s[k] == id);
            }
        }
        lemma_without_absent(s.drop_last(), id);
        assert(s.drop_last().push(s.last()) =~= s);
    }
}

proof fn lemma_without_excludes(s: Seq<u32>, id: u32)
    ensures
        !without(s, id).contains(id),
        forall|x: u32| x != id ==> (without(s, id).contains(x) <==> s.contains(x)),
    decreases s.len(),
{
    if s.len() > 0 {
        let d = s.drop_last();
        lemma_without_excludes(d, id);
        assert forall|x: u32| x != id implies (without(s, id).contains(x) <==> s.contains(x)) by {
            if s.contains(x) && x != s.last() {
                let k = choose|k: int| 0 <= k < s.len() && s[k] == x;
                assert(d[k] == x);
            }
            if d.contains(x) {
                let k = choose|k: int| 0 <= k < d.len() && d[k] == x;
                assert(s[k] == x);
            }
            if s.last() != id {
                let w = without(d, id);
                if w.push(s.last()).contains(x) && x != s.last() {
                    let k = choose|k: int| 0 <= k < w.push(s.last()).len() && w.push(s.last())[k] == x;
                    assert(w[k] == x);
                }
                if w.contains(x) {
                    let k = choose|k: int| 0 <= k < w.len() && w[k] == x;
                    assert(w.push(s.last())[k] == x);
                }
                if x == s.last() {
                    assert(w.push(s.last())[w.len() as int] == x);
                }
            }
        }
        if s.last() != id {
            let w = without(d, id);
            if w.push(s.last()).contains(id) {
                let k = choose|k: int| 0 <= k < w.push(s.last()).len() && w.push(s.last())[k] == id;
                assert(w[k] == id);
            }
        }
    }
}

/// A member who joins and leaves again leaves the table as it was.
pub proof fn lemma_join_then_leave(m: Map<Seq<char>, Seq<u32>>, code: Seq<char>, id: u32)
    requires
        rooms_nonempty(m),
        m.dom().contains(code),
        !m[code].contains(id),
    ensures
        after_leave(m.insert(code, m[code].push(id)), code, id) == m,
{
    let joined = m.insert(code, m[code].push(id));
    lemma_without_absent(m[code], id);
    assert(m[code].push(id).drop_last() =~= m[code]);
    assert(without(joined[code], id) == m[code]);
    assert(m[code].len() > 0);
    assert(joined.insert(code, m[code]) =~= m);
}

/// A host who leaves before anyone joins takes the room away again.
pub proof fn lemma_host_then_leave(m: Map<Seq<char>, Seq<u32>>, code: Seq<char>, id: u32)
    requires
        !m.dom().contains(code),
    ensures
        after_leave(m.insert(code, seq![id]), code, id) == m,
{
    let hosted = m.insert(code, seq![id]);
    assert(seq![id].drop_last() =~= Seq::<u32>::empty());
    assert(without(Seq::<u32>::empty(), id).len() == 0);
    assert(without(seq![id], id).len() == 0);
    assert(hosted.remove(code) =~= m);
}

/// Nobody hears their own message, and everyone else in the room does.
pub proof fn lemma_hearers(m: Map<Seq<char>, Seq<u32>>, code: Seq<char>, from: u32)
    ensures
        !hearers(m, code, from).contains(from),
        m.dom().contains(code) ==> forall|x: u32|
            x != from ==> (hearers(m, code, from).contains(x) <==> #[trigger] m[code].contains(x)),
{
    if m.dom().contains(code) {
        lemma_without_excludes(m[code], from);
    }
}

struct Room {
    code: String,
    members: Vec<u32>,
}

/// Open rooms by code, each with its members in joining order.
pub struct RoomTable {
    rooms: Vec<Room>,
}

/// Members of a room without `id` (exec).
fn members_without(v: &Vec<u32>, id: u32) -> (r: Vec<u32>)
    ensures
        r@ == without(v@, id),
{
    let mut out: Vec<u32> = Vec::new();
    let mut i: usize = 0;
    while i < v.len()
        invariant
            i <= v.len(),
            out@ == without(v@.take(i as int), id),
        decreases v.len() - i,
    {
        proof {
            assert(v@.take(i + 1).drop_last() =~= v@.take(i as int));
            assert(v@.take(i + 1).last() == v@[i as int]);
        }
        if v[i] != id {
            out.push(v[i]);
        }
        i += 1;
    }
    assert(v@.take(v.len() as int) =~= v@);
    out
}

impl RoomTable {
    #[verifier::type_invariant]
    spec fn inv(self) -> bool {
        &&& forall|i: int, j: int| 0 <= i < j < self.rooms@.len() ==> self.rooms@[i].code@ != self.rooms@[j].code@
        &&& forall|i: int| 0 <= i < self.rooms@.len() ==> self.rooms@[i].members@.len() > 0
    }

    spec fn has_code(self, c: Seq<char>) -> bool {
        exists|i: int| 0 <= i < self.rooms@.len() && self.rooms@[i].code@ == c
    }

    spec fn pos(self, c: Seq<char>) -> int {
        choose|i: int| 0 <= i < self.rooms@.len() && self.rooms@[i].code@ == c
    }

    /// The table as a map from room code to members.
    pub closed spec fn table(self) -> Map<Seq<char>, Seq<u32>> {
        Map::new(|c: Seq<char>| self.has_code(c), |c: Seq<char>| self.rooms@[self.pos(c)].members@)
    }

    proof fn lemma_at(self, k: int)
        requires
            self.inv(),
            0 <= k < self.rooms@.len(),
        ensures
            self.table().dom().contains(self.rooms@[k].code@),
            self.table()[self.rooms@[k].code@] == self.rooms@[k].members@,
    {
        let c = self.rooms@[k].code@;
        assert(self.has_code(c));
        let p = self.pos(c);
        if p < k {
            assert(self.rooms@[p].code@ != self.rooms@[k].code@);
        } else if p > k {
            assert(self.rooms@[k].code@ != self.rooms@[p].code@);
        }
    }

    proof fn lemma_nonempty(self)
        requires
            self.inv(),
        ensures
            rooms_nonempty(self.table()),
    {
        assert forall|c: Seq<char>| self.table().dom().contains(c) implies #[trigger] self.table()[c].len() > 0 by {
            let p = self.pos(c);
            self.lemma_at(p);
        }
    }

    proof fn lemma_table_update(self, before: RoomTable, k: int)
        requires
            self.inv(),
            before.inv(),
            0 <= k < before.rooms@.len(),
            self.rooms@.len() == before.rooms@.len(),
            forall|i: int| 0 <= i < self.rooms@.len() && i != k ==> self.rooms@[i] == before.rooms@[i],
            self.rooms@[k].code@ == before.rooms@[k].code@,
        ensures
            self.table() == before.table().insert(before.rooms@[k].code@, self.rooms@[k].members@),
    {
        let code = before.rooms@[k].code@;
        let want = before.table().insert(code, self.rooms@[k].members@);
        assert forall|c: Seq<char>| self.table().dom().contains(c) <==> want.dom().contains(c) by {
            if self.has_code(c) {
                let p = self.pos(c);
                if p != k {
                    assert(before.rooms@[p].code@ == c);
                }
            }
            if before.has_code(c) {
                let p = before.pos(c);
                assert(self.rooms@[p].code@ == c);
            }
        }
        assert forall|c: Seq<char>| self.table().dom().contains(c) implies self.table()[c] == want[c] by {
            if c == code {
                self.lemma_at(k);
            } else {
                let p = before.pos(c);
                before.lemma_at(p);
                assert(p != k);
                assert(self.rooms@[p] == before.rooms@[p]);
                self.lemma_at(p);
            }
        }
        assert(self.table() =~= want);
    }

    proof fn lemma_table_push(self, before: RoomTable)
        requires
            self.inv(),
            before.inv(),
            self.rooms@.len() == before.rooms@.len() + 1,
            forall|i: int| 0 <= i < before.rooms@.len() ==> self.rooms@[i] == before.rooms@[i],
        ensures
            self.table() == before.table().insert(self.rooms@.last().code@, self.rooms@.last().members@),
    {
        let k = before.rooms@.len() as int;
        let code = self.rooms@[k].code@;
        let want = before.table().insert(code, self.rooms@[k].members@);
        assert forall|c: Seq<char>| self.table().dom().contains(c) <==> want.dom().contains(c) by {
            if self.has_code(c) {
                let p = self.pos(c);
                if p != k {
                    assert(before.rooms@[p].code@ == c);
                }
            }
            if before.has_code(c) {
                let p = before.pos(c);
                assert(self.rooms@[p].code@ == c);
            }
        }
        assert forall|c: Seq<char>| self.table().dom().contains(c) implies self.table()[c] == want[c] by {
            if c == code {
                self.lemma_at(k);
            } else {
                let p = before.pos(c);
                before.lemma_at(p);
                assert(self.rooms@[p] == before.rooms@[p]);
                self.lemma_at(p);
            }
        }
        assert(self.table() =~= want);
    }

    proof fn lemma_table_remove(self, before: RoomTable, k: int)
        requires
            self.inv(),
            before.inv(),
            0 <= k < before.rooms@.len(),
            self.rooms@ == before.rooms@.remove(k),
        ensures
            self.table() == before.table().remove(before.rooms@[k].code@),
    {
        let code = before.rooms@[k].code@;
        let want = before.table().remove(code);
        assert forall|c: Seq<char>| self.table().dom().contains(c) <==> want.dom().contains(c) by {
            if self.has_code(c) {
                let q = self.pos(c);
                let p = if q < k { q } else { q + 1 };
                assert(self.rooms@[q] == before.rooms@[p]);
                assert(p != k) by {
                    if p == k {
                        assert(false);
                    }
                }
                if c == code {
                    if p < k {
                        assert(before.rooms@[p].code@ != before.rooms@[k].code@);
                    } else {
                        assert(before.rooms@[k].code@ != before.rooms@[p].code@);
                    }
                }
            }
            if before.has_code(c) && c != code {
                let p = before.pos(c);
                let q = if p < k { p } else { p - 1 };
                assert(self.rooms@[q] == before.rooms@[p]);
            }
        }
        assert forall|c: Seq<char>| self.table().dom().contains(c) implies self.table()[c] == want[c] by {
            let p = before.pos(c);
            before.lemma_at(p);
            let q = if p < k { p } else { p - 1 };
            assert(self.rooms@[q] == before.rooms@[p]);
            self.lemma_at(q);
        }
        assert(self.table() =~= want);
    }

    fn replace_room(&mut self, k: usize, room: Room)
        requires
            k < old(self).rooms@.len(),
            old(self).rooms@[k as int].code@ == room.code@,
            room.members@.len() > 0,
        ensures
            final(self).rooms@ == old(self).rooms@.update(k as int, room),
    {
        proof {
            use_type_invariant(&*self);
        }
        let ghost before = self.rooms@;
        let mut rooms: Vec<Room> = Vec::new();
        std::mem::swap(&mut rooms, &mut self.rooms);
        rooms.set(k, room);
        proof {
            assert(rooms@ == before.update(k as int, room));
            assert forall|i: int, j: int| 0 <= i < j < rooms@.len() implies rooms@[i].code@ != rooms@[j].code@ by {
                assert(rooms@[i].code@ == before[i].code@);
                assert(rooms@[j].code@ == before[j].code@);
            }
        }
        self.rooms = rooms;
    }

    fn remove_room(&mut self, k: usize)
        requires
            k < old(self).rooms@.len(),
        ensures
            final(self).rooms@ == old(self).rooms@.remove(k as int),
    {
        proof {
            use_type_invariant(&*self);
        }
        let ghost before = self.rooms@;
        let mut rooms: Vec<Room> = Vec::new();
        std::mem::swap(&mut rooms, &mut self.rooms);
        rooms.remove(k);
        proof {
            assert(rooms@ == before.remove(k as int));
            assert forall|i: int, j: int| 0 <= i < j < rooms@.len() implies rooms@[i].code@ != rooms@[j].code@ by {
                let a = if i < k { i } else { i + 1 };
                let b = if j < k { j } else { j + 1 };
                assert(rooms@[i] == before[a]);
                assert(rooms@[j] == before[b]);
            }
            assert forall|i: int| 0 <= i < rooms@.len() implies rooms@[i].members@.len() > 0 by {
                let a = if i < k { i } else { i + 1 };
                assert(rooms@[i] == before[a]);
            }
        }
        self.rooms = rooms;
    }

    fn push_room(&mut self, room: Room)
        requires
            !old(self).has_code(room.code@),
            room.members@.len() > 0,
        ensures
            final(self).rooms@ == old(self).rooms@.push(room),
    {
        proof {
            use_type_invariant(&*self);
        }
        let ghost before = self.rooms@;
        let mut rooms: Vec<Room> = Vec::new();
        std::mem::swap(&mut rooms, &mut self.rooms);
        rooms.push(room);
        proof {
            assert forall|i: int, j: int| 0 <= i < j < rooms@.len() implies rooms@[i].code@ != rooms@[j].code@ by {
                assert(rooms@[i] == before[i]);
                if j < before.len() {
                    assert(rooms@[j] == before[j]);
                }
            }
        }
        self.rooms = rooms;
    }

    pub fn new() -> (r: Self)
        ensures
            r.table() == Map::<Seq<char>, Seq<u32>>::empty(),
    {
        let r = RoomTable { rooms: Vec::new() };
        assert(r.table() =~= Map::<Seq<char>, Seq<u32>>::empty());
        r
    }

    fn find(&self, code: &str) -> (r: Option<usize>)
        ensures
            r matches Some(k) ==> k < self.rooms@.len() && self.rooms@[k as int].code@ == code@,
            r is None ==> !self.has_code(code@),
    {
        let mut i: usize = 0;
        while i < self.rooms.len()
            invariant
                i <= self.rooms@.len(),
                forall|j: int| 0 <= j < i ==> self.rooms@[j].code@ != code@,
            decreases self.rooms@.len() - i,
        {
            if str_eq(self.rooms[i].code.as_str(), code) {
                return Some(i);
            }
            i += 1;
        }
        None
    }

    /// Members of a room, if it is open.
    pub fn members(&self, code: &str) -> (r: Option<Vec<u32>>)
        ensures
            r is Some <==> self.table().dom().contains(code@),
            r matches Some(v) ==> v@ == self.table()[code@],
    {
        proof {
            use_type_invariant(self);
        }
        match self.find(code) {
            Some(k) => {
                proof {
                    self.lemma_at(k as int);
                }
                Some(self.rooms[k].members.clone())
            },
            None => None,
        }
    }

    /// Open a room under `code` with `id` as its host. Refused (`false`,
    /// table unchanged) while a room under that code has members.
    pub fn host(&mut self, code: &str, id: u32) -> (r: bool)
        ensures
            r == host_ok(old(self).table(), code@),
            r ==> final(self).table() == old(self).table().insert(code@, seq![id]),
            !r ==> final(self).table() == old(self).table(),
            rooms_nonempty(final(self).table()),
    {
        proof {
            use_type_invariant(&*self);
        }
        let ghost before = *self;
        let mut members: Vec<u32> = Vec::new();
        members.push(id);
        assert(members@ =~= seq![id]);
        match self.find(code) {
            Some(k) => {
                proof {
                    before.lemma_at(k as int);
                }
                if self.rooms[k].members.len() > 0 {
                    proof {
                        self.lemma_nonempty();
                    }
                    return false;
                }
                let room = Room { code: String::from_str(code), members };
                self.replace_room(k, room);
                proof {
                    use_type_invariant(&*self);
                    self.lemma_table_update(before, k as int);
                }
            },
            None => {
                proof {
                    assert(!before.table().dom().contains(code@));
                }
                let room = Room { code: String::from_str(code), members };
                self.push_room(room);
                proof {
                    use_type_invariant(&*self);
                    self.lemma_table_push(before);
                }
            },
        }
        proof {
            use_type_invariant(&*self);
            self.lemma_nonempty();
        }
        true
    }

    /// Add `id` to the room under `code`; refused (`false`, table unchanged)
    /// when there is no such room.
    pub fn join(&mut self, code: &str, id: u32) -> (r: bool)
        ensures
            r == old(self).table().dom().contains(code@),
            r ==> final(self).table() == old(self).table().insert(code@, old(self).table()[code@].push(id)),
            !r ==> final(self).table() == old(self).table(),
            rooms_nonempty(final(self).table()),
    {
        proof {
            use_type_invariant(&*self);
        }
        let ghost before = *self;
        match self.find(code) {
            Some(k) => {
                proof {
                    before.lemma_at(k as int);
                }
                let mut members = self.rooms[k].members.clone();
                assert(members@ =~= before.rooms@[k as int].members@);
                members.push(id);
                let room = Room { code: String::from_str(code), members };
                self.replace_room(k, room);
                proof {
                    use_type_invariant(&*self);
                    self.lemma_table_update(before, k as int);
                    self.lemma_nonempty();
                }
                true
            },
            None => {
                proof {
                    assert(!before.table().dom().contains(code@));
                    self.lemma_nonempty();
                }
                false
            },
        }
    }

    /// `id` leaves the room under `code`; a room left empty is closed.
    pub fn leave(&mut self, code: &str, id: u32)
        ensures
            final(self).table() == after_leave(old(self).table(), code@, id),
            rooms_nonempty(final(self).table()),
    {
        proof {
            use_type_invariant(&*self);
        }
        let ghost before = *self;
        match self.find(code) {
            Some(k) => {
                proof {
                    before.lemma_at(k as int);
                }
                let rest = members_without(&self.rooms[k].members, id);
                if rest.len() == 0 {
                    self.remove_room(k);
                    proof {
                        use_type_invariant(&*self);
                        self.lemma_table_remove(before, k as int);
                    }
                } else {
                    let room = Room { code: String::from_str(code), members: rest };
                    self.replace_room(k, room);
                    proof {
                        use_type_invariant(&*self);
                        self.lemma_table_update(before, k as int);
                    }
                }
            },
            None => {
                assert(!before.table().dom().contains(code@));
            },
        }
        proof {
            use_type_invariant(&*self);
            self.lemma_nonempty();
        }
    }

    /// Who hears a message from `from` in room `code`: the other members, in
    /// joining order (nobody when the room is not open).
    pub fn recipients(&self, code: &str, from: u32) -> (r: Vec<u32>)
        ensures
            r@ == hearers(self.table(), code@, from),
    {
        proof {
            use_type_invariant(self);
        }
        match self.find(code) {
            Some(k) => {
                proof {
                    self.lemma_at(k as int);
                }
                members_without(&self.rooms[k].members, from)
            },
            None => Vec::new(),
        }
    }
}

/// What the relay does with a connection whose hello line was read.
pub struct Admission {
    /// The reply line for the connection.
    pub reply: String,
    /// Whether the connection is now in the room (and stays to relay lines).
    pub admitted: bool,
    /// Whether the room is told `INFO|join|<id>`.
    pub announce: bool,
}

/// A connection with id `id` asks to host or join room `code`: a host gets
/// `OK|HOST` unless the code is taken, a client `OK|CLIENT|<id>` when the
/// room is open (and the room hears of it); any other role is refused.
pub fn answer_hello(rooms: &mut RoomTable, role: Role, code: &str, id: u32) -> (r: Admission)
    ensures
        match role {
            Role::Host => {
                &&& r.admitted == host_ok(old(rooms).table(), code@)
                &&& r.reply@ == if r.admitted { "OK|HOST"@ } else { "FAIL|code_taken"@ }
                &&& final(rooms).table() == if r.admitted {
                    old(rooms).table().insert(code@, seq![id])
                } else {
                    old(rooms).table()
                }
                &&& !r.announce
            },
            Role::Join => {
                &&& r.admitted == old(rooms).table().dom().contains(code@)
                &&& r.reply@ == if r.admitted { "OK|CLIENT|"@ + decimal(id as nat) } else { "FAIL|no_room"@ }
                &&& final(rooms).table() == if r.admitted {
                    old(rooms).table().insert(code@, old(rooms).table()[code@].push(id))
                } else {
                    old(rooms).table()
                }
                &&& r.announce == r.admitted
            },
            Role::Other => {
                &&& !r.admitted
                &&& r.reply@ == "FAIL|bad_role"@
                &&& final(rooms).table() == old(rooms).table()
                &&& !r.announce
            },
        },
{
    proof {
        reveal_strlit("FAIL|");
        reveal_strlit("code_taken");
        reveal_strlit("FAIL|code_taken");
        reveal_strlit("no_room");
        reveal_strlit("FAIL|no_room");
        reveal_strlit("bad_role");
        reveal_strlit("FAIL|bad_role");
    }
    match role {
        Role::Host => {
            if rooms.host(code, id) {
                Admission { reply: String::from_str("OK|HOST"), admitted: true, announce: false }
            } else {
                Admission { reply: fail_line("code_taken"), admitted: false, announce: false }
            }
        },
        Role::Join => {
            if rooms.join(code, id) {
                Admission { reply: client_ok_line(id), admitted: true, announce: true }
            } else {
                Admission { reply: fail_line("no_room"), admitted: false, announce: false }
            }
        },
        Role::Other => Admission { reply: fail_line("bad_role"), admitted: false, announce: false },
    }
}

} // verus!
