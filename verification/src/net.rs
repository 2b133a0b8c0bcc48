//! The line-based multiplayer protocol: join codes, message lines and the
//! building-kind field. Sockets and threads live at the program's edge.

use vstd::prelude::*;
use vstd::string::{StrSliceExecFns, StringExecFns};
use crate::sim::{facing_read, kind_of_code, lemma_kind_code_injective, spec_kind_code, BuildingKind, Facing};
use crate::relay::{after_bar, first_bar, head_field, split_bar, trim, trim_text};
use crate::text::{str_eq, decimal, decimal_padded, digit_char, lemma_decimal_digits, lemma_decimal_len, lemma_decimal_len_below, ten_pow, push_char, push_decimal, push_decimal_padded, push_str};

verus! {

pub const DEFAULT_PORT: u16 = 7788;

/// Six-digit join code of a clock reading in milliseconds.
pub open spec fn code_text(millis: u128) -> Seq<char> {
    decimal_padded((millis % 1_000_000) as nat, 6)
}

/// A join code is always six decimal digits.
pub proof fn lemma_code_six_digits(millis: u128)
    ensures
        code_text(millis).len() == 6,
        forall|i: int| 0 <= i < 6 ==> '0' <= #[trigger] code_text(millis)[i] <= '9',
{
    let n = (millis % 1_000_000) as nat;
    assert(ten_pow(6) == 1_000_000) by {
        reveal_with_fuel(ten_pow, 7);
    }
    lemma_decimal_len_below(n, 6);
    lemma_decimal_digits(n);
    let d = decimal(n);
    let pad = Seq::new((6 - d.len()) as nat, |i: int| '0');
    if d.len() < 6 {
        assert(code_text(millis) == pad + d);
        assert forall|i: int| 0 <= i < 6 implies '0' <= #[trigger] code_text(millis)[i] <= '9' by {
            if i >= pad.len() {
                assert(code_text(millis)[i] == d[i - pad.len()]);
            }
        }
    }
}

/// The host's join code for a clock reading of `millis` milliseconds since
/// the epoch: its last six digits.
pub fn gen_code(millis: u128) -> (r: String)
    ensures
        r@ == code_text(millis),
{
    let mut s = String::new();
    push_decimal_padded(&mut s, (millis % 1_000_000) as u64, 6);
    s
}

/// Fields joined with `|`.
pub open spec fn join_fields(parts: Seq<Seq<char>>) -> Seq<char>
    decreases parts.len(),
{
    if parts.len() == 0 {
        Seq::empty()
    } else if parts.len() == 1 {
        parts[0]
    } else {
        join_fields(parts.drop_last()) + "|"@ + parts.last()
    }
}

/// One protocol line: the fields joined with `|`, then a newline.
pub fn line(parts: &[&str]) -> (r: String)
    ensures
        r@ == join_fields(parts@.map_values(|p: &str| p@)) + "\n"@,
{
    let ghost views = parts@.map_values(|p: &str| p@);
    let mut s = String::new();
    let mut k: usize = 0;
    while k < parts.len()
        invariant
            k <= parts@.len(),
            views == parts@.map_values(|p: &str| p@),
            s@ == join_fields(views.take(k as int)),
        decreases parts@.len() - k,
    {
        let ghost before = s@;
        assert(views.take(k + 1).drop_last() =~= views.take(k as int));
        if k > 0 {
            push_str(&mut s, "|");
        }
        push_str(&mut s, parts[k]);
        if k == 0 {
            assert(s@ =~= join_fields(views.take(1)));
        } else {
            assert(s@ =~= before + "|"@ + views[k as int]);
        }
        k += 1;
    }
    assert(views.take(parts@.len() as int) =~= views);
    push_str(&mut s, "\n");
    s
}

/// A building kind as its wire number, or `-` for none.
pub open spec fn kind_field(k: Option<BuildingKind>) -> Seq<char> {
    match k {
        Some(k) => decimal(spec_kind_code(k) as nat),
        None => "-"@,
    }
}

pub fn kind_opt(k: Option<BuildingKind>) -> (r: String)
    ensures
        r@ == kind_field(k),
{
    match k {
        Some(k) => {
            let mut s = String::new();
            push_decimal(&mut s, k.as_u8() as u64);
            s
        },
        None => String::from_str("-"),
    }
}

pub open spec fn is_digit(c: char) -> bool {
    '0' <= c <= '9'
}

/// Value of a run of decimal digits.
pub open spec fn digits_value(d: Seq<char>) -> nat
    decreases d.len(),
{
    if d.len() == 0 {
        0
    } else {
        digits_value(d.drop_last()) * 10 + ((d.last() as u32) - ('0' as u32)) as nat
    }
}

/// The text after an optional leading `+`.
pub open spec fn unsigned_part(s: Seq<char>) -> Seq<char> {
    if s.len() > 0 && s[0] == '+' { s.drop_first() } else { s }
}

pub open spec fn all_digits(d: Seq<char>) -> bool {
    forall|i: int| 0 <= i < d.len() ==> is_digit(#[trigger] d[i])
}

/// `str::parse::<u8>`: an optional `+`, then one or more decimal digits
/// whose value fits in a byte.
pub open spec fn parse_u8_text(s: Seq<char>) -> Option<u8> {
    let d = unsigned_part(s);
    if d.len() == 0 || !all_digits(d) {
        None
    } else if digits_value(d) <= 255 {
        Some(digits_value(d) as u8)
    } else {
        None
    }
}

proof fn lemma_digits_value_grows(d: Seq<char>, k: int)
    requires
        0 <= k <= d.len(),
        forall|i: int| 0 <= i < d.len() ==> is_digit(#[trigger] d[i]),
    ensures
        digits_value(d.take(k)) <= digits_value(d),
    decreases d.len() - k,
{
    if k < d.len() {
        lemma_digits_value_grows(d, k + 1);
        assert(d.take(k + 1).drop_last() =~= d.take(k));
    } else {
        assert(d.take(k) =~= d);
    }
}

/// Parse a byte the way `str::parse::<u8>` does.
pub fn parse_u8(s: &str) -> (r: Option<u8>)
    ensures
        r == parse_u8_text(s@),
{
    let n = s.unicode_len();
    let mut i: usize = 0;
    if n > 0 && s.get_char(0) == '+' {
        i = 1;
    }
    let ghost d = unsigned_part(s@);
    if i == n {
        return None;
    }
    let start = i;
    let mut v: u32 = 0;
    let mut big = false;
    while i < n
        invariant
            n == s@.len(),
            start <= i <= n,
            start < n,
            d == s@.subrange(start as int, n as int),
            d == unsigned_part(s@),
            forall|j: int| 0 <= j < i - start ==> is_digit(#[trigger] d[j]),
            !big ==> v == digits_value(d.take(i - start)),
            !big ==> v <= 255,
            big ==> digits_value(d.take(i - start)) > 255,
        decreases n - i,
    {
        let c = s.get_char(i);
        assert(c == d[i - start]);
        if !('0' <= c && c <= '9') {
            assert(!is_digit(d[i - start]));
            return None;
        }
        proof {
            assert(d.take(i - start + 1).drop_last() =~= d.take(i - start));
        }
        if !big {
            let dv = (c as u32) - ('0' as u32);
            v = v * 10 + dv;
            if v > 255 {
                big = true;
            }
        } else {
            assert(digits_value(d.take(i - start + 1)) >= digits_value(d.take(i - start)));
        }
        i += 1;
    }
    assert(d.take(n - start) =~= d);
    if big {
        None
    } else {
        Some(v as u8)
    }
}

/// A building-kind field read back: `-` is none; a number names the kind
/// with that wire number (none when no kind has it); anything else is none.
pub open spec fn kind_read(s: Seq<char>) -> Option<BuildingKind> {
    if s == "-"@ {
        None
    } else {
        match parse_u8_text(s) {
            Some(v) => if v < 26 {
                Some(choose|k: BuildingKind| spec_kind_code(k) == v)
            } else {
                None
            },
            None => None,
        }
    }
}

proof fn lemma_digit_value(d: nat)
    requires
        d < 10,
    ensures
        ((digit_char(d) as u32) - ('0' as u32)) as nat == d,
{
}

proof fn lemma_digits_value_decimal(n: nat)
    ensures
        digits_value(decimal(n)) == n,
    decreases n,
{
    if n >= 10 {
        lemma_digits_value_decimal(n / 10);
        let d = decimal(n / 10);
        assert(decimal(n).drop_last() =~= d);
        assert(decimal(n).last() == digit_char(n % 10));
        lemma_digit_value(n % 10);
    } else {
        assert(decimal(n).drop_last() =~= Seq::<char>::empty());
        lemma_digit_value(n);
        assert(digits_value(Seq::<char>::empty()) == 0);
    }
}

/// A byte written in decimal reads back as itself.
proof fn lemma_parse_decimal(n: u8)
    ensures
        parse_u8_text(decimal(n as nat)) == Some(n),
{
    let d = decimal(n as nat);
    lemma_decimal_len(n as nat);
    lemma_decimal_digits(n as nat);
    lemma_digits_value_decimal(n as nat);
    assert(d[0] != '+');
    assert(unsigned_part(d) == d);
    assert(all_digits(d));
}

/// Writing a building-kind field and reading it back gives the same kind.
pub proof fn lemma_kind_field_roundtrip(k: Option<BuildingKind>)
    ensures
        kind_read(kind_field(k)) == k,
{
    reveal_strlit("-");
    match k {
        Some(b) => {
            let v = spec_kind_code(b);
            lemma_parse_decimal(v);
            lemma_decimal_digits(v as nat);
            lemma_decimal_len(v as nat);
            assert(decimal(v as nat) != "-"@) by {
                assert(decimal(v as nat)[0] != '-');
            }
            lemma_kind_code_injective();
            let c = choose|c: BuildingKind| spec_kind_code(c) == v;
            assert(spec_kind_code(c) == v);
        },
        None => {},
    }
}

/// Read a building-kind field (`-` for none).
pub fn parse_kind(s: &str) -> (r: Option<BuildingKind>)
    ensures
        r == kind_read(s@),
{
    if crate::text::str_eq(s, "-") {
        None
    } else {
        match parse_u8(s) {
            Some(v) => {
                let r = BuildingKind::from_u8(v);
                proof {
                    lemma_kind_code_injective();
                    if v < 26 {
                        let c = choose|c: BuildingKind| spec_kind_code(c) == v;
                        assert(spec_kind_code(r->0) == v);
                        assert(spec_kind_code(c) == v);
                    }
                }
                r
            },
            None => None,
        }
    }
}

/// `str::parse::<u32>`: an optional `+`, then one or more decimal digits
/// whose value fits in 32 bits.
pub open spec fn parse_u32_text(s: Seq<char>) -> Option<u32> {
    let d = unsigned_part(s);
    if d.len() == 0 || !all_digits(d) {
        None
    } else if digits_value(d) <= u32::MAX {
        Some(digits_value(d) as u32)
    } else {
        None
    }
}

/// Parse a 32-bit number the way `str::parse::<u32>` does.
pub fn parse_u32(s: &str) -> (r: Option<u32>)
    ensures
        r == parse_u32_text(s@),
{
    let n = s.unicode_len();
    let mut i: usize = 0;
    if n > 0 && s.get_char(0) == '+' {
        i = 1;
    }
    let ghost d = unsigned_part(s@);
    if i == n {
        return None;
    }
    let start = i;
    let mut v: u64 = 0;
    let mut big = false;
    while i < n
        invariant
            n == s@.len(),
            start <= i <= n,
            start < n,
            d == s@.subrange(start as int, n as int),
            d == unsigned_part(s@),
            forall|j: int| 0 <= j < i - start ==> is_digit(#[trigger] d[j]),
            !big ==> v == digits_value(d.take(i - start)),
            !big ==> v <= u32::MAX,
            big ==> digits_value(d.take(i - start)) > u32::MAX,
        decreases n - i,
    {
        let c = s.get_char(i);
        assert(c == d[i - start]);
        if !('0' <= c && c <= '9') {
            assert(!is_digit(d[i - start]));
            return None;
        }
        proof {
            assert(d.take(i - start + 1).drop_last() =~= d.take(i - start));
        }
        if !big {
            let dv = (c as u64) - ('0' as u64);
            v = v * 10 + dv;
            if v > 0xffff_ffffu64 {
                big = true;
            }
        } else {
            assert(digits_value(d.take(i - start + 1)) >= digits_value(d.take(i - start)));
        }
        i += 1;
    }
    assert(d.take(n - start) =~= d);
    if big {
        None
    } else {
        Some(v as u32)
    }
}

/// Where `first_bar` finds a `|`, it is the first one.
pub proof fn lemma_first_bar(s: Seq<char>)
    ensures
        first_bar(s) matches Some(i) ==> 0 <= i < s.len() && s[i] == '|'
            && forall|j: int| 0 <= j < i ==> s[j] != '|',
        first_bar(s) is None ==> forall|j: int| 0 <= j < s.len() ==> s[j] != '|',
{
    if exists|i: int| 0 <= i < s.len() && s[i] == '|' {
        let w = choose|i: int| 0 <= i < s.len() && s[i] == '|';
        lemma_least_bar(s, w);
    }
}

proof fn lemma_least_bar(s: Seq<char>, w: int)
    requires
        0 <= w < s.len(),
        s[w] == '|',
    ensures
        exists|i: int| 0 <= i < s.len() && s[i] == '|' && forall|j: int| 0 <= j < i ==> s[j] != '|',
    decreases w,
{
    if exists|j: int| 0 <= j < w && s[j] == '|' {
        let j = choose|j: int| 0 <= j < w && s[j] == '|';
        lemma_least_bar(s, j);
    }
}

/// The `|`-separated fields of a line, as `str::split('|')` yields them:
/// always at least one, empty fields included.
#[verifier::opaque]
pub open spec fn bar_fields(s: Seq<char>) -> Seq<Seq<char>>
    decreases s.len(),
{
    if first_bar(s) is Some {
        proof {
            lemma_first_bar(s);
        }
        seq![head_field(s)] + bar_fields(after_bar(s))
    } else {
        seq![s]
    }
}

/// The fields of a line without `|` are the line itself; otherwise the first
/// field comes before the fields of the rest. There is always at least one.
pub proof fn lemma_bar_fields(s: Seq<char>)
    ensures
        first_bar(s) is None ==> bar_fields(s) == seq![s],
        first_bar(s) is Some ==> bar_fields(s) == seq![head_field(s)] + bar_fields(after_bar(s)),
        bar_fields(s).len() >= 1,
{
    reveal_with_fuel(bar_fields, 1);
}

proof fn lemma_push_view(v: Seq<String>, f: String)
    ensures
        v.push(f).map_values(|x: String| x@) == v.map_values(|x: String| x@).push(f@),
{
    assert(v.push(f).map_values(|x: String| x@) =~= v.map_values(|x: String| x@).push(f@));
}

/// Split a line at every `|`.
pub fn split_fields(s: &str) -> (r: Vec<String>)
    ensures
        r@.map_values(|f: String| f@) == bar_fields(s@),
{
    let mut out: Vec<String> = Vec::new();
    let mut rest: &str = s;
    let ghost mut acc: Seq<Seq<char>> = Seq::empty();
    assert(out@.map_values(|f: String| f@) =~= acc);
    assert(acc + bar_fields(rest@) =~= bar_fields(s@));
    loop
        invariant
            out@.map_values(|f: String| f@) == acc,
            acc + bar_fields(rest@) == bar_fields(s@),
        decreases rest@.len(),
    {
        let (i, found) = split_bar(rest);
        let n = rest.unicode_len();
        proof {
            lemma_bar_fields(rest@);
        }
        if !found {
            proof {
                assert(bar_fields(rest@) == seq![rest@]);
                assert(acc.push(rest@) =~= acc + seq![rest@]);
            }
            let last = String::from_str(rest);
            proof {
                lemma_push_view(out@, last);
            }
            out.push(last);
            return out;
        }
        let head = rest.substring_char(0, i);
        let tail = rest.substring_char(i + 1, n);
        proof {
            assert(head@ == head_field(rest@));
            assert(tail@ == after_bar(rest@));
            assert(bar_fields(rest@) == seq![head@] + bar_fields(tail@));
            assert(acc + bar_fields(rest@) =~= acc.push(head@) + bar_fields(tail@));
        }
        let field = String::from_str(head);
        proof {
            lemma_push_view(out@, field);
            acc = acc.push(head@);
        }
        out.push(field);
        rest = tail;
    }
}

/// A peer's line read up to its decimal coordinates, which are passed on as
/// text.
pub enum Incoming {
    /// `CUR|id|x|y|kind|facing`: a peer's cursor.
    Cursor { peer: u8, x: String, y: String, selected: Option<BuildingKind>, facing: Facing },
    /// `PLACE|id|kind|x|y|facing`: a building placed by the host.
    Place { id: u32, kind: BuildingKind, x: String, y: String, facing: Facing },
    /// `REM|id`: a building removed by the host.
    Remove { id: u32 },
    /// Any other line.
    Ignored,
}

pub open spec fn or_u8(v: Option<u8>, d: u8) -> u8 {
    match v {
        Some(x) => x,
        None => d,
    }
}

pub open spec fn or_u32(v: Option<u32>, d: u32) -> u32 {
    match v {
        Some(x) => x,
        None => d,
    }
}

/// The fields of a received line: trimmed, then split at `|`.
pub open spec fn line_fields(raw: Seq<char>) -> Seq<Seq<char>> {
    bar_fields(trim(raw))
}

pub open spec fn is_cursor_line(p: Seq<Seq<char>>) -> bool {
    p.len() >= 6 && p[0] == "CUR"@
}

/// A `PLACE` line whose kind field names a building kind.
pub open spec fn is_place_line(p: Seq<Seq<char>>) -> bool {
    p.len() >= 6 && p[0] == "PLACE"@ && kind_of_code(or_u8(parse_u8_text(p[2]), 255)) is Some
}

/// A `REM` line whose id parses.
pub open spec fn is_remove_line(p: Seq<Seq<char>>) -> bool {
    p.len() >= 2 && p[0] == "REM"@ && parse_u32_text(p[1]) is Some
}

/// Read a peer's line. A cursor's id defaults to `pid_fallback`, a placed
/// building's id to 0, and a facing to north when its field does not parse.
pub fn read_incoming(pid_fallback: u8, raw: &str) -> (r: Incoming)
    ensures
        match r {
            Incoming::Cursor { peer, x, y, selected, facing } => {
                let p = line_fields(raw@);
                &&& is_cursor_line(p)
                &&& peer == or_u8(parse_u8_text(p[1]), pid_fallback)
                &&& x@ == p[2]
                &&& y@ == p[3]
                &&& selected == kind_read(p[4])
                &&& facing == facing_read(or_u8(parse_u8_text(p[5]), 0))
            },
            Incoming::Place { id, kind, x, y, facing } => {
                let p = line_fields(raw@);
                &&& !is_cursor_line(p) && is_place_line(p)
                &&& id == or_u32(parse_u32_text(p[1]), 0)
                &&& Some(kind) == kind_of_code(or_u8(parse_u8_text(p[2]), 255))
                &&& x@ == p[3]
                &&& y@ == p[4]
                &&& facing == facing_read(or_u8(parse_u8_text(p[5]), 0))
            },
            Incoming::Remove { id } => {
                let p = line_fields(raw@);
                &&& !is_cursor_line(p) && !is_place_line(p) && is_remove_line(p)
                &&& Some(id) == parse_u32_text(p[1])
            },
            Incoming::Ignored => {
                let p = line_fields(raw@);
                !is_cursor_line(p) && !is_place_line(p) && !is_remove_line(p)
            },
        },
{
    let t = trim_text(raw);
    let p = split_fields(t.as_str());
    let ghost pv = p@.map_values(|f: String| f@);
    assert(pv == line_fields(raw@));
    proof {
        lemma_bar_fields(trim(raw@));
    }
    assert(pv.len() >= 1);
    let n = p.len();
    assert(pv[0] == p[0]@);
    if n >= 6 && str_eq(p[0].as_str(), "CUR") {
        assert(pv[1] == p[1]@ && pv[2] == p[2]@ && pv[3] == p[3]@ && pv[4] == p[4]@ && pv[5] == p[5]@);
        let id = match parse_u8(p[1].as_str()) {
            Some(v) => v,
            None => pid_fallback,
        };
        let fv = match parse_u8(p[5].as_str()) {
            Some(v) => v,
            None => 0,
        };
        return Incoming::Cursor {
            peer: id,
            x: p[2].clone(),
            y: p[3].clone(),
            selected: parse_kind(p[4].as_str()),
            facing: Facing::from_u8(fv),
        };
    }
    if n >= 6 && str_eq(p[0].as_str(), "PLACE") {
        assert(pv[1] == p[1]@ && pv[2] == p[2]@ && pv[3] == p[3]@ && pv[4] == p[4]@ && pv[5] == p[5]@);
        let kv = match parse_u8(p[2].as_str()) {
            Some(v) => v,
            None => 255,
        };
        if let Some(kind) = BuildingKind::from_u8(kv) {
            let id = match parse_u32(p[1].as_str()) {
                Some(v) => v,
                None => 0,
            };
            let fv = match parse_u8(p[5].as_str()) {
                Some(v) => v,
                None => 0,
            };
            proof {
                reveal_strlit("CUR");
                reveal_strlit("PLACE");
                assert(pv[0] != "CUR"@) by {
                    assert(pv[0].len() != "CUR"@.len());
                }
            }
            return Incoming::Place { id, kind, x: p[3].clone(), y: p[4].clone(), facing: Facing::from_u8(fv) };
        }
    }
    if n >= 2 && str_eq(p[0].as_str(), "REM") {
        assert(pv[1] == p[1]@);
        if let Some(id) = parse_u32(p[1].as_str()) {
            proof {
                reveal_strlit("CUR");
                reveal_strlit("PLACE");
                reveal_strlit("REM");
                assert(pv[0] != "CUR"@) by {
                    assert(pv[0][0] != "CUR"@[0]);
                }
                assert(pv[0] != "PLACE"@) by {
                    assert(pv[0].len() != "PLACE"@.len());
                }
            }
            return Incoming::Remove { id };
        }
    }
    proof {
        reveal_strlit("CUR");
        reveal_strlit("PLACE");
        reveal_strlit("REM");
    }
    Incoming::Ignored
}

/// The host admits a `JOIN|<code>` hello carrying its own room code.
pub open spec fn join_accepted(hello: Seq<char>, code: Seq<char>) -> bool {
    let p = line_fields(hello);
    p[0] == "JOIN"@ && p.len() >= 2 && p[1] == code
}

/// Whether a client's hello line asks to join the room `code`.
pub fn accepts_join(hello: &str, code: &str) -> (r: bool)
    ensures
        r == join_accepted(hello@, code@),
{
    let t = trim_text(hello);
    let p = split_fields(t.as_str());
    let ghost pv = p@.map_values(|f: String| f@);
    assert(pv == line_fields(hello@));
    proof {
        lemma_bar_fields(trim(hello@));
    }
    assert(pv.len() >= 1);
    assert(pv[0] == p[0]@);
    if !str_eq(p[0].as_str(), "JOIN") || p.len() < 2 {
        return false;
    }
    assert(pv[1] == p[1]@);
    str_eq(p[1].as_str(), code)
}

/// The id a client reads from the host's reply: an `OK` line gives the id
/// in its second field, 1 when that is missing or no byte number; any other
/// reply refuses the join.
pub open spec fn join_reply_id(reply: Seq<char>) -> Option<u8> {
    let p = line_fields(reply);
    if p[0] == "OK"@ {
        Some(if p.len() >= 2 { or_u8(parse_u8_text(p[1]), 1) } else { 1 })
    } else {
        None
    }
}

/// Read the host's answer to a join: the client's player id, or `None`
/// when the join was refused.
pub fn read_join_reply(reply: &str) -> (r: Option<u8>)
    ensures
        r == join_reply_id(reply@),
{
    let t = trim_text(reply);
    let p = split_fields(t.as_str());
    let ghost pv = p@.map_values(|f: String| f@);
    assert(pv == line_fields(reply@));
    proof {
        lemma_bar_fields(trim(reply@));
    }
    assert(pv.len() >= 1);
    assert(pv[0] == p[0]@);
    if !str_eq(p[0].as_str(), "OK") {
        return None;
    }
    if p.len() < 2 {
        return Some(1);
    }
    assert(pv[1] == p[1]@);
    match parse_u8(p[1].as_str()) {
        Some(v) => Some(v),
        None => Some(1),
    }
}

} // verus!
