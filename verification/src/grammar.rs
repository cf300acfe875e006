//! Status grammar: decodes the screen-geometry line and the per-output
//! connection lines of a display-status dump, skipping unrecognized lines.

use vstd::prelude::*;

use crate::scanner::{
    Parser, after_line, all_digits, digit_run_end, digits_val, is_digit_char, is_space_char,
    lemma_after_line, lemma_digit_run, lemma_space_run, lemma_word_run, some_failure_at,
    space_run_end, word_run_end,
};

verus! {

/// Global virtual-screen geometry: minimum, current and maximum size in
/// pixels, in the order they stand in the text.
#[derive(Debug, PartialEq, Eq)]
pub struct Screen {
    pub number: u64,
    pub minimum: (u64, u64),
    pub current: (u64, u64),
    pub maximum: (u64, u64),
}

/// One display output as reported by the status text.
#[derive(Debug, PartialEq, Eq, Clone)]
pub struct Port {
    pub port: String,
    pub connected: bool,
    pub primary: bool,
    pub resolution: Option<(u64, u64)>,
}

/// The mathematical value of a `Port`: its name as a character sequence and
/// its three attributes.
pub struct PortV {
    pub name: Seq<char>,
    pub connected: bool,
    pub primary: bool,
    pub resolution: Option<(u64, u64)>,
}

impl View for Port {
    type V = PortV;

    open spec fn view(&self) -> PortV {
        PortV {
            name: self.port@,
            connected: self.connected,
            primary: self.primary,
            resolution: self.resolution,
        }
    }
}

/// The values of a sequence of ports.
pub open spec fn views_of(ports: Seq<Port>) -> Seq<PortV> {
    ports.map_values(|p: Port| p@)
}

/// A resolution at position `i`: a digit run, optional whitespace, the
/// letter 'x', optional whitespace, and a second digit run, both runs within
/// `u64` range. Yields the two values and the position just past the second
/// run.
pub open spec fn res_scan(s: Seq<char>, i: int) -> Option<((u64, u64), int)> {
    let e1 = digit_run_end(s, i);
    let w = digits_val(s.subrange(i, e1));
    if e1 == i || w > u64::MAX {
        None
    } else {
        let i2 = space_run_end(s, e1);
        if i2 < s.len() && s[i2] == 'x' {
            let i3 = space_run_end(s, i2 + 1);
            let e2 = digit_run_end(s, i3);
            let h = digits_val(s.subrange(i3, e2));
            if e2 == i3 || h > u64::MAX {
                None
            } else {
                Some((((w as u64), (h as u64)), e2))
            }
        } else {
            None
        }
    }
}

/// Parse a resolution such as `2560x1440` or `2560 x 1440`; fails without
/// moving the cursor when no resolution stands at the cursor.
pub fn parse_resolution(parser: &mut Parser) -> (r: Option<(u64, u64)>)
    requires
        old(parser).wf(),
    ensures
        final(parser).input@ == old(parser).input@,
        final(parser).wf(),
        match res_scan(old(parser).text(), old(parser).pos()) {
            Some(((w, h), e)) => r == Some((w, h)) && final(parser).pos() == e,
            None => r is None && final(parser).pos() == old(parser).pos(),
        },
{
    let ghost t = parser.input@;
    let ghost a = parser.pos();
    proof {
        reveal_strlit("x");
    }
    let start = parser.current_ix;
    let x = match parser.parse_u64() {
        Some(x) => x,
        None => {
            proof {
                lemma_digit_run(t, a);
                assert(res_scan(t, a) is None);
            }
            return None;
        },
    };
    proof {
        lemma_digit_run(t, a);
        lemma_space_run(t, digit_run_end(t, a));
    }
    parser.skip_whitespace();
    let ghost i2 = parser.pos();
    if parser.parse_token("x").is_none() {
        proof {
            if i2 < t.len() && t[i2] == 'x' {
                assert(t.subrange(i2, i2 + 1) =~= "x"@);
            }
            assert(res_scan(t, a) is None);
        }
        parser.current_ix = start;
        return None;
    }
    proof {
        assert(t[i2] == t.subrange(i2, i2 + 1)[0]);
        lemma_space_run(t, i2 + 1);
        lemma_digit_run(t, space_run_end(t, i2 + 1));
    }
    parser.skip_whitespace();
    let y = match parser.parse_u64() {
        Some(y) => y,
        None => {
            proof {
                assert(res_scan(t, a) is None);
            }
            parser.current_ix = start;
            return None;
        },
    };
    Some((x, y))
}

/// The first position at or after `i` where a resolution can be read, with
/// its value and end position; `None` when no position up to the end of the
/// input yields one.
pub open spec fn find_res(s: Seq<char>, i: int) -> Option<((u64, u64), int)>
    decreases s.len() - i,
{
    if res_scan(s, i) is Some {
        res_scan(s, i)
    } else if i >= s.len() {
        None
    } else {
        find_res(s, i + 1)
    }
}

pub proof fn lemma_res_scan_bounds(s: Seq<char>, i: int)
    requires
        0 <= i <= s.len(),
    ensures
        match res_scan(s, i) {
            Some((wh, e)) => i < e <= s.len(),
            None => true,
        },
{
    lemma_digit_run(s, i);
    let e1 = digit_run_end(s, i);
    lemma_space_run(s, e1);
    let i2 = space_run_end(s, e1);
    if i2 < s.len() {
        lemma_space_run(s, i2 + 1);
        lemma_digit_run(s, space_run_end(s, i2 + 1));
    }
}

pub proof fn lemma_find_res_bounds(s: Seq<char>, i: int)
    requires
        0 <= i <= s.len(),
    ensures
        match find_res(s, i) {
            Some((wh, e)) => i < e <= s.len(),
            None => true,
        },
    decreases s.len() - i,
{
    lemma_res_scan_bounds(s, i);
    if res_scan(s, i) is None && i < s.len() {
        lemma_find_res_bounds(s, i + 1);
    }
}

proof fn lemma_find_res_at(s: Seq<char>, i: int, k: int)
    requires
        i <= k,
        res_scan(s, k) is Some,
        forall|j: int| i <= j < k ==> res_scan(s, j) is None,
    ensures
        find_res(s, i) == res_scan(s, k),
    decreases k - i,
{
    if i < k {
        lemma_find_res_at(s, i + 1, k);
    }
}

proof fn lemma_find_res_none(s: Seq<char>, i: int)
    requires
        i <= s.len(),
        forall|j: int| i <= j <= s.len() ==> res_scan(s, j) is None,
    ensures
        find_res(s, i) is None,
    decreases s.len() - i,
{
    if i < s.len() {
        lemma_find_res_none(s, i + 1);
    }
}

/// A failed sub-parse of a resolution at `j` means no resolution stands there.
proof fn lemma_failure_means_no_res(t: Seq<char>, j: int)
    requires
        some_failure_at(parse_resolution, t, j),
    ensures
        res_scan(t, j) is None,
{
}

/// Scan forward from the cursor to the next readable resolution.
fn find_resolution(parser: &mut Parser) -> (r: Option<(u64, u64)>)
    requires
        old(parser).wf(),
    ensures
        final(parser).input@ == old(parser).input@,
        final(parser).wf(),
        match find_res(old(parser).text(), old(parser).pos()) {
            Some((wh, e)) => r == Some(wh) && final(parser).pos() == e,
            None => r is None && final(parser).pos() == old(parser).pos(),
        },
{
    let ghost t = parser.input@;
    let ghost a = parser.pos();
    let r = parser.find(parse_resolution);
    proof {
        match r {
            Some(out) => {
                let p1 = *parser;
                assert(exists|k: int|
                    {
                        &&& a <= k <= t.len()
                        &&& #[trigger] res_scan(t, k) == Some((out, p1.pos()))
                        &&& forall|j: int| a <= j < k ==> some_failure_at(parse_resolution, t, j)
                    });
                let k = choose|k: int|
                    {
                        &&& a <= k <= t.len()
                        &&& #[trigger] res_scan(t, k) == Some((out, p1.pos()))
                        &&& forall|j: int| a <= j < k ==> some_failure_at(parse_resolution, t, j)
                    };
                assert forall|j: int| a <= j < k implies res_scan(t, j) is None by {
                    lemma_failure_means_no_res(t, j);
                }
                lemma_find_res_at(t, a, k);
            },
            None => {
                assert forall|j: int| a <= j <= t.len() implies res_scan(t, j) is None by {
                    lemma_failure_means_no_res(t, j);
                }
                lemma_find_res_none(t, a);
            },
        }
    }
    r
}

/// The screen-geometry line at position `i`: the word `Screen` or `screen`,
/// whitespace, the screen number, then the minimum, current and maximum
/// resolutions located anywhere further along, and the rest of the line.
pub open spec fn screen_scan(s: Seq<char>, i: int) -> Option<(Screen, int)> {
    if i + 6 <= s.len() && (s.subrange(i, i + 6) == "Screen"@ || s.subrange(i, i + 6)
        == "screen"@) {
        let i1 = space_run_end(s, i + 6);
        let e0 = digit_run_end(s, i1);
        let num = digits_val(s.subrange(i1, e0));
        if e0 == i1 || num > u64::MAX {
            None
        } else {
            match find_res(s, e0) {
                None => None,
                Some((mn, e1)) => match find_res(s, e1) {
                    None => None,
                    Some((cur, e2)) => match find_res(s, e2) {
                        None => None,
                        Some((mx, e3)) => Some(
                            (
                                Screen {
                                    number: num as u64,
                                    minimum: mn,
                                    current: cur,
                                    maximum: mx,
                                },
                                after_line(s, e3),
                            ),
                        ),
                    },
                },
            }
        }
    } else {
        None
    }
}

/// Parse the screen-geometry line; fails without moving the cursor when the
/// line does not carry the full geometry.
pub fn parse_screen(parser: &mut Parser) -> (r: Option<Screen>)
    requires
        old(parser).wf(),
    ensures
        final(parser).input@ == old(parser).input@,
        final(parser).wf(),
        match screen_scan(old(parser).text(), old(parser).pos()) {
            Some((sc, e)) => r == Some(sc) && final(parser).pos() == e,
            None => r is None && final(parser).pos() == old(parser).pos(),
        },
{
    let ghost t = parser.input@;
    let ghost a = parser.pos();
    proof {
        reveal_strlit("Screen");
        reveal_strlit("screen");
    }
    let start = parser.current_ix;
    let tok_upper = parser.parse_token("Screen");
    let tok = if tok_upper.is_some() {
        tok_upper
    } else {
        parser.parse_token("screen")
    };
    if tok.is_none() {
        return None;
    }
    proof {
        lemma_space_run(t, a + 6);
        lemma_digit_run(t, space_run_end(t, a + 6));
    }
    parser.skip_whitespace();
    let number = match parser.parse_u64() {
        Some(v) => v,
        None => {
            parser.current_ix = start;
            return None;
        },
    };
    let ghost e0 = parser.pos();
    proof {
        lemma_find_res_bounds(t, e0);
    }
    let minimum = match find_resolution(parser) {
        Some(v) => v,
        None => {
            parser.current_ix = start;
            return None;
        },
    };
    let ghost e1 = parser.pos();
    proof {
        lemma_find_res_bounds(t, e1);
    }
    let current = match find_resolution(parser) {
        Some(v) => v,
        None => {
            parser.current_ix = start;
            return None;
        },
    };
    let ghost e2 = parser.pos();
    proof {
        lemma_find_res_bounds(t, e2);
    }
    let maximum = match find_resolution(parser) {
        Some(v) => v,
        None => {
            parser.current_ix = start;
            return None;
        },
    };
    parser.skip_eol();
    Some(Screen { number, minimum, current, maximum })
}

/// A connection line at position `i`: the port name, the word that decides
/// `connected`, the optional word `primary`, and an optional resolution, then
/// the rest of the line. Only a missing name word fails.
pub open spec fn port_scan(s: Seq<char>, i: int) -> Option<(PortV, int)> {
    let w_end = word_run_end(s, i);
    if w_end == i {
        None
    } else {
        let name = s.subrange(i, w_end);
        let i1 = space_run_end(s, w_end);
        let cw_end = word_run_end(s, i1);
        let connected = cw_end > i1 && s.subrange(i1, cw_end) == "connected"@;
        let i2 = space_run_end(s, cw_end);
        let primary = i2 + 7 <= s.len() && s.subrange(i2, i2 + 7) == "primary"@;
        let i3 = if primary {
            i2 + 7
        } else {
            i2
        };
        let i4 = space_run_end(s, i3);
        let scanned = res_scan(s, i4);
        let resolution = match scanned {
            Some((wh, e)) => Some(wh),
            None => None,
        };
        let i5 = match scanned {
            Some((wh, e)) => e,
            None => i4,
        };
        Some((PortV { name, connected, primary, resolution }, after_line(s, i5)))
    }
}

/// Parse one connection line into a `Port`; fails without moving the cursor
/// only when no name word stands at the cursor.
pub fn parse_connection(parser: &mut Parser) -> (r: Option<Port>)
    requires
        old(parser).wf(),
    ensures
        final(parser).input@ == old(parser).input@,
        final(parser).wf(),
        match port_scan(old(parser).text(), old(parser).pos()) {
            Some((pv, e)) => (r matches Some(p) && p@ == pv) && final(parser).pos() == e,
            None => r is None && final(parser).pos() == old(parser).pos(),
        },
{
    let ghost t = parser.input@;
    let ghost a = parser.pos();
    let port = match parser.parse_word1() {
        Some(w) => w,
        None => {
            proof {
                lemma_word_run(t, a);
            }
            return None;
        },
    };
    proof {
        lemma_word_run(t, a);
        lemma_space_run(t, word_run_end(t, a));
    }
    parser.skip_whitespace();
    let ghost i1 = parser.pos();
    proof {
        lemma_word_run(t, i1);
        lemma_space_run(t, word_run_end(t, i1));
    }
    let connected = match parser.parse_word1() {
        Some(con) => con == "connected".to_owned(),
        None => false,
    };
    parser.skip_whitespace();
    let ghost i2 = parser.pos();
    let primary = parser.parse_token("primary");
    proof {
        reveal_strlit("primary");
        lemma_space_run(t, if i2 + 7 <= t.len() && t.subrange(i2, i2 + 7) == "primary"@ {
            i2 + 7
        } else {
            i2
        });
    }
    parser.skip_whitespace();
    let ghost i4 = parser.pos();
    proof {
        lemma_res_scan_bounds(t, i4);
        lemma_after_line(t, i4);
    }
    let resolution = parse_resolution(parser);
    proof {
        lemma_after_line(t, parser.pos());
    }
    parser.skip_eol();
    Some(Port { port, connected, primary: primary.is_some(), resolution })
}

/// A mode an output can offer, with its refresh rates, as listed line by
/// line in a status dump.
#[derive(Debug)]
pub struct Resolution {
    pub resolution: String,
    pub freq: Vec<String>,
}

/// An output together with the modes it offers.
#[derive(Debug)]
pub struct PortInfo {
    pub port_name: String,
    pub resolutions: Vec<Resolution>,
}

/// The resolution grammar, in full: a text that begins with a digit run,
/// optional whitespace, the letter 'x', optional whitespace, and a second
/// digit run not followed by a further digit, scans from its start to the two
/// values, and the scan stops exactly past the characters it consumed.
pub proof fn lemma_res_scan_exact(
    s: Seq<char>,
    da: Seq<char>,
    w1: Seq<char>,
    w2: Seq<char>,
    db: Seq<char>,
    rest: Seq<char>,
)
    requires
        s == da + w1 + seq!['x'] + w2 + db + rest,
        da.len() > 0,
        all_digits(da),
        digits_val(da) <= u64::MAX,
        db.len() > 0,
        all_digits(db),
        digits_val(db) <= u64::MAX,
        forall|i: int| 0 <= i < w1.len() ==> is_space_char(w1[i]),
        forall|i: int| 0 <= i < w2.len() ==> is_space_char(w2[i]),
        rest.len() > 0 ==> !is_digit_char(rest[0]),
    ensures
        res_scan(s, 0) == Some(
            (((digits_val(da) as u64), (digits_val(db) as u64)), s.len() - rest.len()),
        ),
{
    let la = da.len() as int;
    let l1 = la + w1.len() as int;
    let lx = l1 + 1;
    let l2 = lx + w2.len() as int;
    let lb = l2 + db.len() as int;
    assert forall|j: int| 0 <= j < la implies is_digit_char(s[j]) by {
        assert(s[j] == da[j]);
    }
    assert(s[l1] == 'x');
    assert(!is_digit_char(s[l1]));
    if w1.len() > 0 {
        assert(s[la] == w1[0]);
    }
    crate::scanner::lemma_run_end_is(s, 0, la, |c: char| is_digit_char(c));
    assert(s.subrange(0, la) =~= da);
    assert forall|j: int| la <= j < l1 implies is_space_char(s[j]) by {
        assert(s[j] == w1[j - la]);
    }
    assert(!is_space_char(s[l1]));
    crate::scanner::lemma_run_end_is(s, la, l1, |c: char| is_space_char(c));
    assert forall|j: int| lx <= j < l2 implies is_space_char(s[j]) by {
        assert(s[j] == w2[j - lx]);
    }
    assert(s[l2] == db[0]);
    assert(!is_space_char(s[l2]));
    crate::scanner::lemma_run_end_is(s, lx, l2, |c: char| is_space_char(c));
    assert forall|j: int| l2 <= j < lb implies is_digit_char(s[j]) by {
        assert(s[j] == db[j - l2]);
    }
    if lb < s.len() {
        assert(s[lb] == rest[0]);
    }
    crate::scanner::lemma_run_end_is(s, l2, lb, |c: char| is_digit_char(c));
    assert(s.subrange(l2, lb) =~= db);
}

/// The ordered port list read from the whole text: at each line, a port if a
/// connection line starts there, else nothing, continuing past the line.
pub open spec fn ports_scan(s: Seq<char>, i: int) -> Seq<PortV>
    decreases s.len() - i,
    when 0 <= i
    via ports_scan_decreases
{
    if i >= s.len() {
        Seq::empty()
    } else {
        match port_scan(s, i) {
            Some((p, e)) => seq![p] + ports_scan(s, e),
            None => ports_scan(s, after_line(s, i)),
        }
    }
}

pub proof fn lemma_port_scan_bounds(s: Seq<char>, i: int)
    requires
        0 <= i <= s.len(),
    ensures
        match port_scan(s, i) {
            Some((p, e)) => i < e <= s.len(),
            None => true,
        },
{
    lemma_word_run(s, i);
    let w_end = word_run_end(s, i);
    lemma_space_run(s, w_end);
    let i1 = space_run_end(s, w_end);
    lemma_word_run(s, i1);
    let cw_end = word_run_end(s, i1);
    lemma_space_run(s, cw_end);
    let i2 = space_run_end(s, cw_end);
    let i3 = if i2 + 7 <= s.len() && s.subrange(i2, i2 + 7) == "primary"@ {
        i2 + 7
    } else {
        i2
    };
    lemma_space_run(s, i3);
    let i4 = space_run_end(s, i3);
    lemma_res_scan_bounds(s, i4);
    let i5 = match res_scan(s, i4) {
        Some((wh, e)) => e,
        None => i4,
    };
    lemma_after_line(s, i5);
}

#[via_fn]
proof fn ports_scan_decreases(s: Seq<char>, i: int) {
    if i < s.len() {
        lemma_port_scan_bounds(s, i);
        lemma_after_line(s, i);
    }
}

/// Read the whole status text into the ordered sequence of ports it reports.
pub fn parse_output(data: String) -> (r: Vec<Port>)
    ensures
        views_of(r@) == ports_scan(data@, 0),
{
    let ghost t = data@;
    let mut parser = Parser::new(data);
    let mut result: Vec<Port> = Vec::new();
    loop
        invariant
            parser.wf(),
            parser.input@ == t,
            t == data@,
            ports_scan(t, 0) == views_of(result@) + ports_scan(t, parser.pos()),
        ensures
            parser.pos() >= t.len(),
            parser.input@ == t,
            ports_scan(t, 0) == views_of(result@) + ports_scan(t, parser.pos()),
        decreases t.len() - parser.pos(),
    {
        proof {
            assert(views_of(result@) + ports_scan(t, parser.pos()) =~= ports_scan(t, 0));
        }
        if parser.eof() {
            break ;
        }
        let ghost here = parser.pos();
        proof {
            lemma_port_scan_bounds(t, here);
            lemma_after_line(t, here);
        }
        match parse_connection(&mut parser) {
            Some(p) => {
                proof {
                    let pv = match port_scan(t, here) {
                        Some((pv, e)) => pv,
                        None => arbitrary(),
                    };
                    assert(views_of(result@.push(p)) =~= views_of(result@).push(p@));
                    assert(views_of(result@).push(p@) + ports_scan(t, parser.pos()) =~= views_of(
                        result@,
                    ) + (seq![pv] + ports_scan(t, parser.pos())));
                }
                result.push(p);
            },
            None => {
                parser.skip_eol();
            },
        }
    }
    proof {
        assert(ports_scan(t, parser.pos()) =~= Seq::<PortV>::empty());
        assert(views_of(result@) + Seq::<PortV>::empty() =~= views_of(result@));
    }
    result
}

} // verus!
