//! The document's stable textual format: a serializer, a strict parser that
//! accepts exactly what the serializer emits, and their round-trip laws.

use vstd::prelude::*;

use crate::errors::TrackerError;
use crate::model::{
    ActiveSession, ActiveView, DocView, ShiganConfig, Session, SessionView, Task, TaskView, empty_doc,
    session_views, task_views,
};
use crate::num::{
    all_digits, dec, digit_val, digit_val_of, is_digit, lemma_parse_u64_complete,
    lemma_parse_u64_sound, lemma_split_digits_concat, lemma_val_nonneg, lemma_val_take_le,
    parse_u64_at, split_digits, u64_chars, val,
};
use crate::strings::{chars_string, str_chars};

verus! {

// ------------------------------------------------------------------
// Serialization, at the specification level.
// ------------------------------------------------------------------
/// One character of string content, escaped: quotes and backslashes get a
/// backslash in front, everything else stands as it is.
pub open spec fn esc_char(c: char) -> Seq<char> {
    if c == '"' || c == '\\' {
        seq!['\\', c]
    } else {
        seq![c]
    }
}

/// Escaped string content.
pub open spec fn esc(s: Seq<char>) -> Seq<char>
    decreases s.len(),
{
    if s.len() == 0 {
        Seq::empty()
    } else {
        esc_char(s[0]) + esc(s.skip(1))
    }
}

/// A quoted, escaped string.
pub open spec fn ser_str(s: Seq<char>) -> Seq<char> {
    seq!['"'] + esc(s) + seq!['"']
}

/// One recorded session.
pub open spec fn ser_session(s: SessionView) -> Seq<char> {
    "{\"started\":"@ + ser_str(s.started) + ",\"ended\":"@ + ser_str(s.ended) + ",\"duration\":"@
        + ser_str(s.duration) + "}"@
}

/// A comma-separated run of sessions.
pub open spec fn ser_sessions(ss: Seq<SessionView>) -> Seq<char>
    decreases ss.len(),
{
    if ss.len() == 0 {
        Seq::empty()
    } else if ss.len() == 1 {
        ser_session(ss[0])
    } else {
        ser_session(ss[0]) + seq![','] + ser_sessions(ss.skip(1))
    }
}

/// One registered task with its total and history.
pub open spec fn ser_task(t: TaskView) -> Seq<char> {
    "{\"task\":"@ + ser_str(t.name) + ",\"durationInMinutes\":"@ + dec(t.minutes as nat)
        + ",\"sessions\":["@ + ser_sessions(t.sessions) + "]}"@
}

/// A comma-separated run of tasks.
pub open spec fn ser_tasks(ts: Seq<TaskView>) -> Seq<char>
    decreases ts.len(),
{
    if ts.len() == 0 {
        Seq::empty()
    } else if ts.len() == 1 {
        ser_task(ts[0])
    } else {
        ser_task(ts[0]) + seq![','] + ser_tasks(ts.skip(1))
    }
}

/// The active marker: `null` when nothing runs.
pub open spec fn ser_current(c: Option<ActiveView>) -> Seq<char> {
    match c {
        None => "null"@,
        Some(a) => "{\"task\":"@ + ser_str(a.task) + ",\"session\":{\"started\":"@ + ser_str(
            a.started,
        ) + "}}"@,
    }
}

/// The whole document.
pub open spec fn ser_doc(d: DocView) -> Seq<char> {
    "{\"current\":"@ + ser_current(d.current) + ",\"subjects\":["@ + ser_tasks(d.subjects) + "]}"@
}

proof fn lemma_esc_concat(a: Seq<char>, b: Seq<char>)
    ensures
        esc(a + b) == esc(a) + esc(b),
    decreases a.len(),
{
    if a.len() == 0 {
        assert(a + b =~= b);
        assert(esc(a) + esc(b) =~= esc(b));
    } else {
        assert((a + b).skip(1) =~= a.skip(1) + b);
        lemma_esc_concat(a.skip(1), b);
        assert((a + b)[0] == a[0]);
        assert(esc_char(a[0]) + (esc(a.skip(1)) + esc(b)) =~= (esc_char(a[0]) + esc(a.skip(1)))
            + esc(b));
        assert(esc(a) == esc_char(a[0]) + esc(a.skip(1)));
    }
}

/// Appending one more session to a nonempty run appends a comma and its
/// text; to an empty run, just its text.
proof fn lemma_ser_sessions_snoc(ss: Seq<SessionView>, s: SessionView)
    ensures
        ss.len() == 0 ==> ser_sessions(ss.push(s)) == ser_session(s),
        ss.len() >= 1 ==> ser_sessions(ss.push(s)) == ser_sessions(ss) + seq![','] + ser_session(
            s,
        ),
    decreases ss.len(),
{
    if ss.len() == 0 {
        assert(ss.push(s)[0] == s);
        assert(ser_sessions(ss.push(s)) == ser_session(s));
    } else {
        lemma_ser_sessions_snoc(ss.skip(1), s);
        assert(ss.push(s).skip(1) =~= ss.skip(1).push(s));
        assert(ss.push(s)[0] == ss[0]);
        if ss.len() == 1 {
            assert(ser_sessions(ss.push(s)) == ser_session(ss[0]) + seq![','] + ser_sessions(
                ss.skip(1).push(s),
            ));
            assert(ser_sessions(ss) == ser_session(ss[0]));
        } else {
            assert(ser_sessions(ss.push(s)) == ser_session(ss[0]) + seq![','] + ser_sessions(
                ss.skip(1).push(s),
            ));
            assert(ser_session(ss[0]) + seq![','] + (ser_sessions(ss.skip(1)) + seq![',']
                + ser_session(s)) =~= (ser_session(ss[0]) + seq![','] + ser_sessions(ss.skip(1)))
                + seq![','] + ser_session(s));
        }
    }
}

proof fn lemma_ser_tasks_snoc(ts: Seq<TaskView>, t: TaskView)
    ensures
        ts.len() == 0 ==> ser_tasks(ts.push(t)) == ser_task(t),
        ts.len() >= 1 ==> ser_tasks(ts.push(t)) == ser_tasks(ts) + seq![','] + ser_task(t),
    decreases ts.len(),
{
    if ts.len() == 0 {
        assert(ts.push(t)[0] == t);
        assert(ser_tasks(ts.push(t)) == ser_task(t));
    } else {
        lemma_ser_tasks_snoc(ts.skip(1), t);
        assert(ts.push(t).skip(1) =~= ts.skip(1).push(t));
        assert(ts.push(t)[0] == ts[0]);
        if ts.len() == 1 {
            assert(ser_tasks(ts.push(t)) == ser_task(ts[0]) + seq![','] + ser_tasks(
                ts.skip(1).push(t),
            ));
            assert(ser_tasks(ts) == ser_task(ts[0]));
        } else {
            assert(ser_tasks(ts.push(t)) == ser_task(ts[0]) + seq![','] + ser_tasks(
                ts.skip(1).push(t),
            ));
            assert(ser_task(ts[0]) + seq![','] + (ser_tasks(ts.skip(1)) + seq![','] + ser_task(t))
                =~= (ser_task(ts[0]) + seq![','] + ser_tasks(ts.skip(1))) + seq![','] + ser_task(
                t,
            ));
        }
    }
}

// ------------------------------------------------------------------
// The executable serializer.
// ------------------------------------------------------------------
/// Appends a literal's characters.
fn push_lit(out: &mut Vec<char>, lit: &str)
    ensures
        final(out)@ == old(out)@ + lit@,
{
    let mut v = str_chars(lit);
    out.append(&mut v);
}

/// Appends a string's content, escaped.
fn push_escaped(out: &mut Vec<char>, s: &str)
    ensures
        final(out)@ == old(out)@ + esc(s@),
{
    let cs = str_chars(s);
    let n = cs.len();
    let ghost orig = out@;
    let mut i: usize = 0;
    proof {
        assert(cs@.take(0) =~= Seq::<char>::empty());
        assert(out@ =~= orig + esc(cs@.take(0)));
    }
    while i < n
        invariant
            n == cs.len(),
            i <= n,
            cs@ == s@,
            out@ == orig + esc(cs@.take(i as int)),
        decreases n - i,
    {
        let c = cs[i];
        proof {
            assert(cs@.take(i + 1) =~= cs@.take(i as int) + seq![c]);
            lemma_esc_concat(cs@.take(i as int), seq![c]);
            assert(seq![c].skip(1) =~= Seq::<char>::empty());
            assert(esc(Seq::<char>::empty()) == Seq::<char>::empty());
            assert(esc(seq![c]) == esc_char(seq![c][0]) + esc(seq![c].skip(1)));
            assert(seq![c][0] == c);
            assert(esc(seq![c]) =~= esc_char(c));
        }
        if c == '"' || c == '\\' {
            out.push('\\');
            out.push(c);
            proof {
                assert(out@ =~= orig + esc(cs@.take(i + 1)));
            }
        } else {
            out.push(c);
            proof {
                assert(out@ =~= orig + esc(cs@.take(i + 1)));
            }
        }
        i = i + 1;
    }
    proof {
        assert(cs@.take(n as int) =~= s@);
    }
}

/// Appends a quoted, escaped string.
fn push_quoted(out: &mut Vec<char>, s: &str)
    ensures
        final(out)@ == old(out)@ + ser_str(s@),
{
    out.push('"');
    push_escaped(out, s);
    out.push('"');
    proof {
        assert(out@ =~= old(out)@ + ser_str(s@));
    }
}

/// Appends one session's text.
fn push_session(out: &mut Vec<char>, s: &Session)
    ensures
        final(out)@ == old(out)@ + ser_session(s@),
{
    push_lit(out, "{\"started\":");
    push_quoted(out, s.started.as_str());
    push_lit(out, ",\"ended\":");
    push_quoted(out, s.ended.as_str());
    push_lit(out, ",\"duration\":");
    push_quoted(out, s.duration.as_str());
    push_lit(out, "}");
    proof {
        assert(out@ =~= old(out)@ + ser_session(s@));
    }
}

/// Appends one task's text.
fn push_task(out: &mut Vec<char>, t: &Task)
    ensures
        final(out)@ == old(out)@ + ser_task(t@),
{
    push_lit(out, "{\"task\":");
    push_quoted(out, t.name.as_str());
    push_lit(out, ",\"durationInMinutes\":");
    let mut digits = u64_chars(t.minutes);
    out.append(&mut digits);
    push_lit(out, ",\"sessions\":[");
    let ghost mark = out@;
    let n = t.sessions.len();
    let mut i: usize = 0;
    proof {
        assert(session_views(t.sessions@).take(0) =~= Seq::<SessionView>::empty());
        assert(out@ =~= mark + ser_sessions(session_views(t.sessions@).take(0)));
    }
    while i < n
        invariant
            n == t.sessions.len(),
            i <= n,
            out@ == mark + ser_sessions(session_views(t.sessions@).take(i as int)),
        decreases n - i,
    {
        if i > 0 {
            out.push(',');
        }
        push_session(out, &t.sessions[i]);
        proof {
            let svs = session_views(t.sessions@);
            assert(svs[i as int] == t.sessions@[i as int]@);
            assert(svs.take(i + 1) =~= svs.take(i as int).push(svs[i as int]));
            lemma_ser_sessions_snoc(svs.take(i as int), svs[i as int]);
            assert(svs.take(i as int).len() == i);
            assert(out@ =~= mark + ser_sessions(svs.take(i + 1)));
        }
        i = i + 1;
    }
    proof {
        assert(session_views(t.sessions@).take(n as int) =~= session_views(t.sessions@));
    }
    push_lit(out, "]}");
    proof {
        assert(out@ =~= old(out)@ + ser_task(t@));
    }
}

/// Serializes the whole document to its stable textual form.
pub fn save_document(d: &ShiganConfig) -> (r: String)
    ensures
        r@ == ser_doc(d@),
{
    let mut out: Vec<char> = Vec::new();
    push_lit(&mut out, "{\"current\":");
    match &d.current {
        None => {
            push_lit(&mut out, "null");
        },
        Some(a) => {
            push_lit(&mut out, "{\"task\":");
            push_quoted(&mut out, a.task.as_str());
            push_lit(&mut out, ",\"session\":{\"started\":");
            push_quoted(&mut out, a.started.as_str());
            push_lit(&mut out, "}}");
        },
    }
    proof {
        assert(out@ =~= "{\"current\":"@ + ser_current(d@.current));
    }
    push_lit(&mut out, ",\"subjects\":[");
    let ghost mark = out@;
    let n = d.subjects.len();
    let mut i: usize = 0;
    proof {
        assert(task_views(d.subjects@).take(0) =~= Seq::<TaskView>::empty());
        assert(out@ =~= mark + ser_tasks(task_views(d.subjects@).take(0)));
    }
    while i < n
        invariant
            n == d.subjects.len(),
            i <= n,
            out@ == mark + ser_tasks(task_views(d.subjects@).take(i as int)),
        decreases n - i,
    {
        if i > 0 {
            out.push(',');
        }
        push_task(&mut out, &d.subjects[i]);
        proof {
            let tvs = task_views(d.subjects@);
            assert(tvs[i as int] == d.subjects@[i as int]@);
            assert(tvs.take(i + 1) =~= tvs.take(i as int).push(tvs[i as int]));
            lemma_ser_tasks_snoc(tvs.take(i as int), tvs[i as int]);
            assert(tvs.take(i as int).len() == i);
            assert(out@ =~= mark + ser_tasks(tvs.take(i + 1)));
        }
        i = i + 1;
    }
    proof {
        assert(task_views(d.subjects@).take(n as int) =~= task_views(d.subjects@));
    }
    push_lit(&mut out, "]}");
    proof {
        assert(out@ =~= ser_doc(d@));
    }
    chars_string(&out)
}

// ------------------------------------------------------------------
// Parsing, at the specification level. The parser is strict: it accepts
// exactly the serializer's output.
// ------------------------------------------------------------------
/// Consumes the exact literal `p` from the head of `s`.
pub open spec fn expect(p: Seq<char>, s: Seq<char>) -> Option<Seq<char>> {
    if p.len() <= s.len() && s.take(p.len() as int) == p {
        Some(s.skip(p.len() as int))
    } else {
        None
    }
}

proof fn lemma_expect_complete(p: Seq<char>, rest: Seq<char>)
    ensures
        expect(p, p + rest) == Some(rest),
{
    let s = p + rest;
    assert(s.take(p.len() as int) =~= p);
    assert(s.skip(p.len() as int) =~= rest);
}

proof fn lemma_expect_sound(p: Seq<char>, s: Seq<char>, r: Seq<char>)
    requires
        expect(p, s) == Some(r),
    ensures
        s == p + r,
{
    assert(s =~= s.take(p.len() as int) + s.skip(p.len() as int));
}

/// Consumes escaped string content up to and including the closing quote.
pub open spec fn parse_str_body(s: Seq<char>) -> Option<(Seq<char>, Seq<char>)>
    decreases s.len(),
{
    if s.len() == 0 {
        None
    } else if s[0] == '"' {
        Some((Seq::empty(), s.skip(1)))
    } else if s[0] == '\\' {
        if s.len() < 2 || (s[1] != '"' && s[1] != '\\') {
            None
        } else {
            match parse_str_body(s.skip(2)) {
                None => None,
                Some((c, r)) => Some((seq![s[1]] + c, r)),
            }
        }
    } else {
        match parse_str_body(s.skip(1)) {
            None => None,
            Some((c, r)) => Some((seq![s[0]] + c, r)),
        }
    }
}

/// Consumes a quoted, escaped string.
pub open spec fn parse_qstr(s: Seq<char>) -> Option<(Seq<char>, Seq<char>)> {
    if s.len() >= 1 && s[0] == '"' {
        parse_str_body(s.skip(1))
    } else {
        None
    }
}

proof fn lemma_str_body_complete(c: Seq<char>, rest: Seq<char>)
    ensures
        parse_str_body(esc(c) + (seq!['"'] + rest)) == Some((c, rest)),
    decreases c.len(),
{
    let s = esc(c) + (seq!['"'] + rest);
    if c.len() == 0 {
        assert(esc(c) == Seq::<char>::empty());
        assert(s =~= seq!['"'] + rest);
        assert(s[0] == '"');
        assert(s.skip(1) =~= rest);
    } else {
        let c0 = c[0];
        assert(esc(c) == esc_char(c0) + esc(c.skip(1)));
        lemma_str_body_complete(c.skip(1), rest);
        if c0 == '"' || c0 == '\\' {
            assert(esc_char(c0) == seq!['\\', c0]);
            assert(s[0] == '\\');
            assert(s[1] == c0);
            assert(s.len() >= 2);
            assert(s.skip(2) =~= esc(c.skip(1)) + (seq!['"'] + rest));
            assert(parse_str_body(s.skip(2)) == Some((c.skip(1), rest)));
            assert(seq![s[1]] + c.skip(1) =~= c);
        } else {
            assert(esc_char(c0) == seq![c0]);
            assert(s[0] == c0);
            assert(s.skip(1) =~= esc(c.skip(1)) + (seq!['"'] + rest));
            assert(parse_str_body(s.skip(1)) == Some((c.skip(1), rest)));
            assert(seq![s[0]] + c.skip(1) =~= c);
        }
    }
}

proof fn lemma_str_body_sound(s: Seq<char>, c: Seq<char>, r: Seq<char>)
    requires
        parse_str_body(s) == Some((c, r)),
    ensures
        s == esc(c) + seq!['"'] + r,
        s.len() > r.len(),
    decreases s.len(),
{
    if s[0] == '"' {
        assert(c == Seq::<char>::empty());
        assert(esc(c) == Seq::<char>::empty());
        assert(s =~= esc(c) + seq!['"'] + s.skip(1));
    } else if s[0] == '\\' {
        let (c2, r2) = parse_str_body(s.skip(2)).unwrap();
        lemma_str_body_sound(s.skip(2), c2, r2);
        assert(c == seq![s[1]] + c2);
        assert(c[0] == s[1]);
        assert(c.skip(1) =~= c2);
        assert(esc(c) == esc_char(c[0]) + esc(c.skip(1)));
        assert(esc_char(c[0]) == seq!['\\', c[0]]);
        assert(s =~= seq!['\\', s[1]] + s.skip(2));
        assert(s =~= esc(c) + seq!['"'] + r);
    } else {
        let (c2, r2) = parse_str_body(s.skip(1)).unwrap();
        lemma_str_body_sound(s.skip(1), c2, r2);
        assert(c == seq![s[0]] + c2);
        assert(c[0] == s[0]);
        assert(c.skip(1) =~= c2);
        assert(esc(c) == esc_char(c[0]) + esc(c.skip(1)));
        assert(esc_char(c[0]) == seq![c[0]]);
        assert(s =~= seq![s[0]] + s.skip(1));
        assert(s =~= esc(c) + seq!['"'] + r);
    }
}

proof fn lemma_qstr_complete(c: Seq<char>, rest: Seq<char>)
    ensures
        parse_qstr(ser_str(c) + rest) == Some((c, rest)),
{
    let s = ser_str(c) + rest;
    assert(s[0] == '"');
    assert(s.len() >= 1);
    assert(s.skip(1) =~= esc(c) + (seq!['"'] + rest));
    lemma_str_body_complete(c, rest);
}

proof fn lemma_qstr_sound(s: Seq<char>, c: Seq<char>, r: Seq<char>)
    requires
        parse_qstr(s) == Some((c, r)),
    ensures
        s == ser_str(c) + r,
        s.len() > r.len(),
{
    let (c2, r2) = parse_str_body(s.skip(1)).unwrap();
    lemma_str_body_sound(s.skip(1), c2, r2);
    assert(s =~= seq![s[0]] + s.skip(1));
    assert(s =~= ser_str(c) + r);
}

/// Consumes one session record.
pub open spec fn parse_session_at(s: Seq<char>) -> Option<(SessionView, Seq<char>)> {
    match expect("{\"started\":"@, s) {
        None => None,
        Some(s1) => match parse_qstr(s1) {
            None => None,
            Some((st, s2)) => match expect(",\"ended\":"@, s2) {
                None => None,
                Some(s3) => match parse_qstr(s3) {
                    None => None,
                    Some((en, s4)) => match expect(",\"duration\":"@, s4) {
                        None => None,
                        Some(s5) => match parse_qstr(s5) {
                            None => None,
                            Some((du, s6)) => match expect("}"@, s6) {
                                None => None,
                                Some(s7) => Some(
                                    (SessionView { started: st, ended: en, duration: du }, s7),
                                ),
                            },
                        },
                    },
                },
            },
        },
    }
}

proof fn lemma_session_complete(sv: SessionView, rest: Seq<char>)
    ensures
        parse_session_at(ser_session(sv) + rest) == Some((sv, rest)),
{
    let s = ser_session(sv) + rest;
    let t1 = ser_str(sv.started) + (",\"ended\":"@ + (ser_str(sv.ended) + (",\"duration\":"@ + (
    ser_str(sv.duration) + ("}"@ + rest)))));
    assert(s =~= "{\"started\":"@ + t1);
    lemma_expect_complete("{\"started\":"@, t1);
    let t2 = ",\"ended\":"@ + (ser_str(sv.ended) + (",\"duration\":"@ + (ser_str(sv.duration) + (
    "}"@ + rest))));
    lemma_qstr_complete(sv.started, t2);
    let t3 = ser_str(sv.ended) + (",\"duration\":"@ + (ser_str(sv.duration) + ("}"@ + rest)));
    lemma_expect_complete(",\"ended\":"@, t3);
    let t4 = ",\"duration\":"@ + (ser_str(sv.duration) + ("}"@ + rest));
    lemma_qstr_complete(sv.ended, t4);
    let t5 = ser_str(sv.duration) + ("}"@ + rest);
    lemma_expect_complete(",\"duration\":"@, t5);
    let t6 = "}"@ + rest;
    lemma_qstr_complete(sv.duration, t6);
    lemma_expect_complete("}"@, rest);
    assert(parse_session_at(s) == Some((SessionView { started: sv.started, ended: sv.ended, duration: sv.duration }, rest)));
    assert(SessionView { started: sv.started, ended: sv.ended, duration: sv.duration } =~= sv);
}

proof fn lemma_session_sound(s: Seq<char>, sv: SessionView, r: Seq<char>)
    requires
        parse_session_at(s) == Some((sv, r)),
    ensures
        s == ser_session(sv) + r,
        s.len() > r.len(),
{
    let s1 = expect("{\"started\":"@, s).unwrap();
    lemma_expect_sound("{\"started\":"@, s, s1);
    let (st, s2) = parse_qstr(s1).unwrap();
    lemma_qstr_sound(s1, st, s2);
    let s3 = expect(",\"ended\":"@, s2).unwrap();
    lemma_expect_sound(",\"ended\":"@, s2, s3);
    let (en, s4) = parse_qstr(s3).unwrap();
    lemma_qstr_sound(s3, en, s4);
    let s5 = expect(",\"duration\":"@, s4).unwrap();
    lemma_expect_sound(",\"duration\":"@, s4, s5);
    let (du, s6) = parse_qstr(s5).unwrap();
    lemma_qstr_sound(s5, du, s6);
    let s7 = expect("}"@, s6).unwrap();
    lemma_expect_sound("}"@, s6, s7);
    reveal_strlit("{\"started\":");
    assert(s =~= ser_session(sv) + r);
}

/// The length facts that make list parsing terminate.
proof fn lemma_ser_session_len(sv: SessionView)
    ensures
        ser_session(sv).len() >= 1,
{
    reveal_strlit("{\"started\":");
}

proof fn lemma_ser_task_len(tv: TaskView)
    ensures
        ser_task(tv).len() >= 1,
{
    reveal_strlit("{\"task\":");
}

/// Consumes session records up to and including the closing bracket.
pub open spec fn parse_sessions_at(s: Seq<char>) -> Option<(Seq<SessionView>, Seq<char>)>
    decreases s.len(),
{
    if s.len() == 0 {
        None
    } else if s[0] == ']' {
        Some((Seq::empty(), s.skip(1)))
    } else {
        match parse_session_at(s) {
            None => None,
            Some((sv, r)) => if s.len() <= r.len() {
                None
            } else if r.len() >= 1 && r[0] == ',' {
                match parse_sessions_at(r.skip(1)) {
                    None => None,
                    Some((lst, r2)) => if lst.len() == 0 {
                        None
                    } else {
                        Some((seq![sv] + lst, r2))
                    },
                }
            } else if r.len() >= 1 && r[0] == ']' {
                Some((seq![sv], r.skip(1)))
            } else {
                None
            },
        }
    }
}

proof fn lemma_sessions_complete(ss: Seq<SessionView>, rest: Seq<char>)
    ensures
        parse_sessions_at(ser_sessions(ss) + (seq![']'] + rest)) == Some((ss, rest)),
    decreases ss.len(),
{
    let s = ser_sessions(ss) + (seq![']'] + rest);
    reveal_strlit("{\"started\":");
    if ss.len() == 0 {
        assert(ser_sessions(ss) == Seq::<char>::empty());
        assert(s =~= seq![']'] + rest);
        assert(s[0] == ']');
        assert(s.skip(1) =~= rest);
        assert(ss =~= Seq::<SessionView>::empty());
    } else if ss.len() == 1 {
        assert(ser_sessions(ss) == ser_session(ss[0]));
        assert(s =~= ser_session(ss[0]) + (seq![']'] + rest));
        lemma_session_complete(ss[0], seq![']'] + rest);
        let r = seq![']'] + rest;
        assert(s[0] == ser_session(ss[0])[0]);
        assert(ser_session(ss[0])[0] == '{');
        assert(s.len() == ser_session(ss[0]).len() + r.len());
        lemma_ser_session_len(ss[0]);
        assert(s.len() > r.len());
        assert(r[0] == ']');
        assert(r.skip(1) =~= rest);
        assert(seq![ss[0]] =~= ss);
    } else {
        assert(ser_sessions(ss) == ser_session(ss[0]) + seq![','] + ser_sessions(ss.skip(1)));
        let tail = seq![','] + (ser_sessions(ss.skip(1)) + (seq![']'] + rest));
        assert(s =~= ser_session(ss[0]) + tail);
        lemma_session_complete(ss[0], tail);
        assert(s[0] == ser_session(ss[0])[0]);
        assert(ser_session(ss[0])[0] == '{');
        lemma_ser_session_len(ss[0]);
        assert(s.len() > tail.len());
        assert(tail[0] == ',');
        assert(tail.skip(1) =~= ser_sessions(ss.skip(1)) + (seq![']'] + rest));
        lemma_sessions_complete(ss.skip(1), rest);
        assert(parse_sessions_at(tail.skip(1)) == Some((ss.skip(1), rest)));
        assert(ss.skip(1).len() >= 1);
        assert(seq![ss[0]] + ss.skip(1) =~= ss);
    }
}

#[verifier::rlimit(100)]
proof fn lemma_sessions_sound(s: Seq<char>, lst: Seq<SessionView>, r: Seq<char>)
    requires
        parse_sessions_at(s) == Some((lst, r)),
    ensures
        s == ser_sessions(lst) + (seq![']'] + r),
        s.len() > r.len(),
    decreases s.len(),
{
    if s[0] == ']' {
        assert(lst == Seq::<SessionView>::empty());
        assert(ser_sessions(lst) == Seq::<char>::empty());
        assert(s =~= ser_sessions(lst) + (seq![']'] + s.skip(1)));
    } else {
        let (sv, r0) = parse_session_at(s).unwrap();
        lemma_session_sound(s, sv, r0);
        if r0.len() >= 1 && r0[0] == ',' {
            let (lst2, r2) = parse_sessions_at(r0.skip(1)).unwrap();
            lemma_sessions_sound(r0.skip(1), lst2, r2);
            assert(lst == seq![sv] + lst2);
            assert(lst.len() >= 2);
            assert(lst[0] == sv);
            assert(lst.skip(1) =~= lst2);
            assert(ser_sessions(lst) == ser_session(sv) + seq![','] + ser_sessions(lst2));
            assert(r0 =~= seq![','] + r0.skip(1));
            assert(s =~= ser_sessions(lst) + (seq![']'] + r));
        } else {
            assert(r0[0] == ']');
            assert(lst == seq![sv]);
            assert(ser_sessions(lst) == ser_session(lst[0]));
            assert(lst[0] == sv);
            assert(r0 =~= seq![']'] + r0.skip(1));
            assert(s =~= ser_sessions(lst) + (seq![']'] + r));
        }
    }
}

/// Consumes one task record.
pub open spec fn parse_task_at(s: Seq<char>) -> Option<(TaskView, Seq<char>)> {
    match expect("{\"task\":"@, s) {
        None => None,
        Some(s1) => match parse_qstr(s1) {
            None => None,
            Some((name, s2)) => match expect(",\"durationInMinutes\":"@, s2) {
                None => None,
                Some(s3) => match parse_u64_at(s3) {
                    None => None,
                    Some((m, s4)) => match expect(",\"sessions\":["@, s4) {
                        None => None,
                        Some(s5) => match parse_sessions_at(s5) {
                            None => None,
                            Some((ss, s6)) => match expect("}"@, s6) {
                                None => None,
                                Some(s7) => Some(
                                    (TaskView { name: name, minutes: m, sessions: ss }, s7),
                                ),
                            },
                        },
                    },
                },
            },
        },
    }
}

proof fn lemma_task_complete(tv: TaskView, rest: Seq<char>)
    ensures
        parse_task_at(ser_task(tv) + rest) == Some((tv, rest)),
{
    let s = ser_task(tv) + rest;
    reveal_strlit(",\"sessions\":[");
    reveal_strlit("]}");
    reveal_strlit("}");
    assert("]}"@ =~= seq![']'] + "}"@);
    let t1 = ser_str(tv.name) + (",\"durationInMinutes\":"@ + (dec(tv.minutes as nat) + (
    ",\"sessions\":["@ + (ser_sessions(tv.sessions) + (seq![']'] + ("}"@ + rest))))));
    assert(s =~= "{\"task\":"@ + t1);
    lemma_expect_complete("{\"task\":"@, t1);
    let t2 = ",\"durationInMinutes\":"@ + (dec(tv.minutes as nat) + (",\"sessions\":["@ + (
    ser_sessions(tv.sessions) + (seq![']'] + ("}"@ + rest)))));
    lemma_qstr_complete(tv.name, t2);
    let t3 = dec(tv.minutes as nat) + (",\"sessions\":["@ + (ser_sessions(tv.sessions) + (seq![
        ']',
    ] + ("}"@ + rest))));
    lemma_expect_complete(",\"durationInMinutes\":"@, t3);
    let t4 = ",\"sessions\":["@ + (ser_sessions(tv.sessions) + (seq![']'] + ("}"@ + rest)));
    assert(t4[0] == ',');
    assert(!is_digit(t4[0]));
    lemma_parse_u64_complete(tv.minutes, t4);
    assert(parse_u64_at(t3) == Some((tv.minutes, t4)));
    let t5 = ser_sessions(tv.sessions) + (seq![']'] + ("}"@ + rest));
    lemma_expect_complete(",\"sessions\":["@, t5);
    lemma_sessions_complete(tv.sessions, "}"@ + rest);
    lemma_expect_complete("}"@, rest);
    assert(parse_task_at(s) == Some(
        (TaskView { name: tv.name, minutes: tv.minutes, sessions: tv.sessions }, rest),
    ));
    assert(TaskView { name: tv.name, minutes: tv.minutes, sessions: tv.sessions } =~= tv);
}

#[verifier::rlimit(100)]
proof fn lemma_task_sound(s: Seq<char>, tv: TaskView, r: Seq<char>)
    requires
        parse_task_at(s) == Some((tv, r)),
    ensures
        s == ser_task(tv) + r,
        s.len() > r.len(),
{
    let s1 = expect("{\"task\":"@, s).unwrap();
    lemma_expect_sound("{\"task\":"@, s, s1);
    let (name, s2) = parse_qstr(s1).unwrap();
    lemma_qstr_sound(s1, name, s2);
    let s3 = expect(",\"durationInMinutes\":"@, s2).unwrap();
    lemma_expect_sound(",\"durationInMinutes\":"@, s2, s3);
    let (m, s4) = parse_u64_at(s3).unwrap();
    lemma_parse_u64_sound(s3, m, s4);
    let s5 = expect(",\"sessions\":["@, s4).unwrap();
    lemma_expect_sound(",\"sessions\":["@, s4, s5);
    let (ss, s6) = parse_sessions_at(s5).unwrap();
    lemma_sessions_sound(s5, ss, s6);
    let s7 = expect("}"@, s6).unwrap();
    lemma_expect_sound("}"@, s6, s7);
    reveal_strlit("{\"task\":");
    reveal_strlit("]}");
    reveal_strlit("}");
    assert("]}"@ =~= seq![']'] + "}"@);
    assert(s =~= ser_task(tv) + r);
}

/// Consumes task records up to and including the closing bracket.
pub open spec fn parse_tasks_at(s: Seq<char>) -> Option<(Seq<TaskView>, Seq<char>)>
    decreases s.len(),
{
    if s.len() == 0 {
        None
    } else if s[0] == ']' {
        Some((Seq::empty(), s.skip(1)))
    } else {
        match parse_task_at(s) {
            None => None,
            Some((tv, r)) => if s.len() <= r.len() {
                None
            } else if r.len() >= 1 && r[0] == ',' {
                match parse_tasks_at(r.skip(1)) {
                    None => None,
                    Some((lst, r2)) => if lst.len() == 0 {
                        None
                    } else {
                        Some((seq![tv] + lst, r2))
                    },
                }
            } else if r.len() >= 1 && r[0] == ']' {
                Some((seq![tv], r.skip(1)))
            } else {
                None
            },
        }
    }
}

proof fn lemma_tasks_complete(ts: Seq<TaskView>, rest: Seq<char>)
    ensures
        parse_tasks_at(ser_tasks(ts) + (seq![']'] + rest)) == Some((ts, rest)),
    decreases ts.len(),
{
    let s = ser_tasks(ts) + (seq![']'] + rest);
    reveal_strlit("{\"task\":");
    if ts.len() == 0 {
        assert(ser_tasks(ts) == Seq::<char>::empty());
        assert(s =~= seq![']'] + rest);
        assert(s[0] == ']');
        assert(s.skip(1) =~= rest);
        assert(ts =~= Seq::<TaskView>::empty());
    } else if ts.len() == 1 {
        assert(ser_tasks(ts) == ser_task(ts[0]));
        assert(s =~= ser_task(ts[0]) + (seq![']'] + rest));
        lemma_task_complete(ts[0], seq![']'] + rest);
        let r = seq![']'] + rest;
        assert(s[0] == ser_task(ts[0])[0]);
        assert(ser_task(ts[0])[0] == '{');
        assert(s.len() == ser_task(ts[0]).len() + r.len());
        lemma_ser_task_len(ts[0]);
        assert(s.len() > r.len());
        assert(r[0] == ']');
        assert(r.skip(1) =~= rest);
        assert(seq![ts[0]] =~= ts);
    } else {
        assert(ser_tasks(ts) == ser_task(ts[0]) + seq![','] + ser_tasks(ts.skip(1)));
        let tail = seq![','] + (ser_tasks(ts.skip(1)) + (seq![']'] + rest));
        assert(s =~= ser_task(ts[0]) + tail);
        lemma_task_complete(ts[0], tail);
        assert(s[0] == ser_task(ts[0])[0]);
        assert(ser_task(ts[0])[0] == '{');
        lemma_ser_task_len(ts[0]);
        assert(s.len() > tail.len());
        assert(tail[0] == ',');
        assert(tail.skip(1) =~= ser_tasks(ts.skip(1)) + (seq![']'] + rest));
        lemma_tasks_complete(ts.skip(1), rest);
        assert(parse_tasks_at(tail.skip(1)) == Some((ts.skip(1), rest)));
        assert(ts.skip(1).len() >= 1);
        assert(seq![ts[0]] + ts.skip(1) =~= ts);
    }
}

#[verifier::rlimit(100)]
proof fn lemma_tasks_sound(s: Seq<char>, lst: Seq<TaskView>, r: Seq<char>)
    requires
        parse_tasks_at(s) == Some((lst, r)),
    ensures
        s == ser_tasks(lst) + (seq![']'] + r),
        s.len() > r.len(),
    decreases s.len(),
{
    if s[0] == ']' {
        assert(lst == Seq::<TaskView>::empty());
        assert(ser_tasks(lst) == Seq::<char>::empty());
        assert(s =~= ser_tasks(lst) + (seq![']'] + s.skip(1)));
    } else {
        let (tv, r0) = parse_task_at(s).unwrap();
        lemma_task_sound(s, tv, r0);
        if r0.len() >= 1 && r0[0] == ',' {
            let (lst2, r2) = parse_tasks_at(r0.skip(1)).unwrap();
            lemma_tasks_sound(r0.skip(1), lst2, r2);
            assert(lst == seq![tv] + lst2);
            assert(lst.len() >= 2);
            assert(lst[0] == tv);
            assert(lst.skip(1) =~= lst2);
            assert(ser_tasks(lst) == ser_task(tv) + seq![','] + ser_tasks(lst2));
            assert(r0 =~= seq![','] + r0.skip(1));
            assert(s =~= ser_tasks(lst) + (seq![']'] + r));
        } else {
            assert(r0[0] == ']');
            assert(lst == seq![tv]);
            assert(ser_tasks(lst) == ser_task(lst[0]));
            assert(lst[0] == tv);
            assert(r0 =~= seq![']'] + r0.skip(1));
            assert(s == ser_task(tv) + r0);
            assert(ser_task(tv) + r0 =~= ser_task(tv) + (seq![']'] + r));
            assert(ser_task(tv) + (seq![']'] + r) =~= ser_tasks(lst) + (seq![']'] + r));
        }
    }
}

/// Consumes the active marker: `null` or an object.
pub open spec fn parse_current_at(s: Seq<char>) -> Option<(Option<ActiveView>, Seq<char>)> {
    if s.len() >= 1 && s[0] == 'n' {
        match expect("null"@, s) {
            None => None,
            Some(r) => Some((None, r)),
        }
    } else {
        match expect("{\"task\":"@, s) {
            None => None,
            Some(s1) => match parse_qstr(s1) {
                None => None,
                Some((t, s2)) => match expect(",\"session\":{\"started\":"@, s2) {
                    None => None,
                    Some(s3) => match parse_qstr(s3) {
                        None => None,
                        Some((st, s4)) => match expect("}}"@, s4) {
                            None => None,
                            Some(s5) => Some((Some(ActiveView { task: t, started: st }), s5)),
                        },
                    },
                },
            },
        }
    }
}

proof fn lemma_current_complete(c: Option<ActiveView>, rest: Seq<char>)
    ensures
        parse_current_at(ser_current(c) + rest) == Some((c, rest)),
{
    let s = ser_current(c) + rest;
    reveal_strlit("null");
    reveal_strlit("{\"task\":");
    match c {
        None => {
            assert(s =~= "null"@ + rest);
            assert(s[0] == 'n');
            lemma_expect_complete("null"@, rest);
            assert(expect("null"@, s) == Some(rest));
        },
        Some(a) => {
            let t1 = ser_str(a.task) + (",\"session\":{\"started\":"@ + (ser_str(a.started) + (
            "}}"@ + rest)));
            assert(s =~= "{\"task\":"@ + t1);
            assert(s[0] == '{');
            lemma_expect_complete("{\"task\":"@, t1);
            let t2 = ",\"session\":{\"started\":"@ + (ser_str(a.started) + ("}}"@ + rest));
            lemma_qstr_complete(a.task, t2);
            let t3 = ser_str(a.started) + ("}}"@ + rest);
            lemma_expect_complete(",\"session\":{\"started\":"@, t3);
            lemma_qstr_complete(a.started, "}}"@ + rest);
            lemma_expect_complete("}}"@, rest);
            assert(parse_current_at(s) == Some(
                (Some(ActiveView { task: a.task, started: a.started }), rest),
            ));
            assert(ActiveView { task: a.task, started: a.started } =~= a);
        },
    }
}

proof fn lemma_current_sound(s: Seq<char>, c: Option<ActiveView>, r: Seq<char>)
    requires
        parse_current_at(s) == Some((c, r)),
    ensures
        s == ser_current(c) + r,
{
    if s.len() >= 1 && s[0] == 'n' {
        lemma_expect_sound("null"@, s, r);
    } else {
        let s1 = expect("{\"task\":"@, s).unwrap();
        lemma_expect_sound("{\"task\":"@, s, s1);
        let (t, s2) = parse_qstr(s1).unwrap();
        lemma_qstr_sound(s1, t, s2);
        let s3 = expect(",\"session\":{\"started\":"@, s2).unwrap();
        lemma_expect_sound(",\"session\":{\"started\":"@, s2, s3);
        let (st, s4) = parse_qstr(s3).unwrap();
        lemma_qstr_sound(s3, st, s4);
        let s5 = expect("}}"@, s4).unwrap();
        lemma_expect_sound("}}"@, s4, s5);
        assert(s =~= ser_current(c) + r);
    }
}

/// Parses a whole document; the text must be consumed exactly.
pub open spec fn parse_doc(s: Seq<char>) -> Option<DocView> {
    match expect("{\"current\":"@, s) {
        None => None,
        Some(s1) => match parse_current_at(s1) {
            None => None,
            Some((cur, s2)) => match expect(",\"subjects\":["@, s2) {
                None => None,
                Some(s3) => match parse_tasks_at(s3) {
                    None => None,
                    Some((ts, s4)) => match expect("}"@, s4) {
                        None => None,
                        Some(s5) => if s5.len() == 0 {
                            Some(DocView { current: cur, subjects: ts })
                        } else {
                            None
                        },
                    },
                },
            },
        },
    }
}

/// Serialized documents parse back to themselves: saving and then loading
/// recovers the document exactly.
pub proof fn lemma_ser_doc_parses(d: DocView)
    ensures
        parse_doc(ser_doc(d)) == Some(d),
{
    let s = ser_doc(d);
    reveal_strlit("]}");
    reveal_strlit("}");
    assert("]}"@ =~= seq![']'] + "}"@);
    let t1 = ser_current(d.current) + (",\"subjects\":["@ + (ser_tasks(d.subjects) + (seq![']']
        + ("}"@ + Seq::<char>::empty()))));
    assert(s =~= "{\"current\":"@ + t1);
    lemma_expect_complete("{\"current\":"@, t1);
    let t2 = ",\"subjects\":["@ + (ser_tasks(d.subjects) + (seq![']'] + ("}"@
        + Seq::<char>::empty())));
    lemma_current_complete(d.current, t2);
    let t3 = ser_tasks(d.subjects) + (seq![']'] + ("}"@ + Seq::<char>::empty()));
    lemma_expect_complete(",\"subjects\":["@, t3);
    lemma_tasks_complete(d.subjects, "}"@ + Seq::<char>::empty());
    lemma_expect_complete("}"@, Seq::<char>::empty());
    assert("}"@ + Seq::<char>::empty() =~= "}"@);
    assert(parse_doc(s) == Some(DocView { current: d.current, subjects: d.subjects }));
    assert(DocView { current: d.current, subjects: d.subjects } =~= d);
}

/// Whatever parses was exactly the serializer's text for the parsed
/// document: loading and then saving writes back the same characters.
#[verifier::rlimit(100)]
pub proof fn lemma_parse_doc_sound(s: Seq<char>, d: DocView)
    requires
        parse_doc(s) == Some(d),
    ensures
        ser_doc(d) == s,
{
    let s1 = expect("{\"current\":"@, s).unwrap();
    lemma_expect_sound("{\"current\":"@, s, s1);
    let (cur, s2) = parse_current_at(s1).unwrap();
    lemma_current_sound(s1, cur, s2);
    let s3 = expect(",\"subjects\":["@, s2).unwrap();
    lemma_expect_sound(",\"subjects\":["@, s2, s3);
    let (ts, s4) = parse_tasks_at(s3).unwrap();
    lemma_tasks_sound(s3, ts, s4);
    let s5 = expect("}"@, s4).unwrap();
    lemma_expect_sound("}"@, s4, s5);
    assert(s5.len() == 0);
    reveal_strlit("]}");
    reveal_strlit("}");
    assert("]}"@ =~= seq![']'] + "}"@);
    assert(s4 =~= "}"@);
    assert(s3 =~= ser_tasks(ts) + (seq![']'] + "}"@));
    assert(ser_tasks(ts) + (seq![']'] + "}"@) =~= ser_tasks(ts) + "]}"@);
    assert(s2 =~= ",\"subjects\":["@ + (ser_tasks(ts) + "]}"@));
    assert(s1 =~= ser_current(cur) + (",\"subjects\":["@ + (ser_tasks(ts) + "]}"@)));
    assert(s =~= "{\"current\":"@ + (ser_current(cur) + (",\"subjects\":["@ + (ser_tasks(ts)
        + "]}"@))));
    assert(ser_doc(d) =~= "{\"current\":"@ + (ser_current(cur) + (",\"subjects\":["@ + (
    ser_tasks(ts) + "]}"@))));
}

// ------------------------------------------------------------------
// The executable parser: each function mirrors its specification twin.
// ------------------------------------------------------------------
proof fn lemma_skip_skip(v: Seq<char>, a: int, b: int)
    requires
        0 <= a,
        0 <= b,
        a + b <= v.len(),
    ensures
        v.skip(a).skip(b) == v.skip(a + b),
{
    assert(v.skip(a).skip(b) =~= v.skip(a + b));
}

/// Consumes the literal at position `i`, if it is there.
fn x_expect(v: &Vec<char>, i: usize, lit: &Vec<char>) -> (r: Option<usize>)
    requires
        i <= v.len(),
    ensures
        match r {
            Some(j) => i <= j && j <= v.len() && expect(lit@, v@.skip(i as int)) == Some(
                v@.skip(j as int),
            ),
            None => expect(lit@, v@.skip(i as int)) is None,
        },
{
    let n = lit.len();
    if n > v.len() - i {
        proof {
            assert(v@.skip(i as int).len() == v@.len() - i);
        }
        return None;
    }
    let mut k: usize = 0;
    while k < n
        invariant
            i <= v.len(),
            n == lit.len(),
            n <= v.len() - i,
            k <= n,
            forall|m: int| 0 <= m < k ==> v@.skip(i as int)[m] == lit@[m],
        decreases n - k,
    {
        if v[i + k] != lit[k] {
            proof {
                let s = v@.skip(i as int);
                assert(s[k as int] == v@[i + k]);
                if expect(lit@, s) is Some {
                    assert(s.take(n as int) == lit@);
                    assert(s.take(n as int)[k as int] == s[k as int]);
                }
            }
            return None;
        }
        proof {
            assert(v@.skip(i as int)[k as int] == v@[i + k]);
        }
        k = k + 1;
    }
    proof {
        let s = v@.skip(i as int);
        assert(s.take(n as int) =~= lit@);
        lemma_skip_skip(v@, i as int, n as int);
    }
    Some(i + n)
}

/// Consumes escaped string content and the closing quote at position `i`.
fn x_str_body(v: &Vec<char>, i: usize) -> (r: Option<(Vec<char>, usize)>)
    requires
        i <= v.len(),
    ensures
        match r {
            Some((c, j)) => i <= j && j <= v.len() && parse_str_body(v@.skip(i as int)) == Some(
                (c@, v@.skip(j as int)),
            ),
            None => parse_str_body(v@.skip(i as int)) is None,
        },
    decreases v.len() - i,
{
    let ghost s = v@.skip(i as int);
    if i == v.len() {
        proof {
            assert(s.len() == 0);
        }
        return None;
    }
    let c0 = v[i];
    proof {
        assert(s.len() > 0);
        assert(s[0] == c0);
    }
    if c0 == '"' {
        let empty: Vec<char> = Vec::new();
        proof {
            lemma_skip_skip(v@, i as int, 1);
            assert(empty@ =~= Seq::<char>::empty());
        }
        return Some((empty, i + 1));
    }
    if c0 == '\\' {
        if i + 1 == v.len() {
            proof {
                assert(s.len() < 2);
            }
            return None;
        }
        let c1 = v[i + 1];
        proof {
            assert(s[1] == c1);
        }
        if c1 == '"' || c1 == '\\' {
            match x_str_body(v, i + 2) {
                None => {
                    proof {
                        lemma_skip_skip(v@, i as int, 2);
                    }
                    return None;
                },
                Some((c, j)) => {
                    let mut c2 = c;
                    c2.insert(0, c1);
                    proof {
                        lemma_skip_skip(v@, i as int, 2);
                        assert(c2@ =~= seq![s[1]] + c2@.skip(1));
                    }
                    return Some((c2, j));
                },
            }
        } else {
            return None;
        }
    }
    match x_str_body(v, i + 1) {
        None => {
            proof {
                lemma_skip_skip(v@, i as int, 1);
            }
            None
        },
        Some((c, j)) => {
            let mut c2 = c;
            c2.insert(0, c0);
            proof {
                lemma_skip_skip(v@, i as int, 1);
                assert(c2@ =~= seq![s[0]] + c2@.skip(1));
            }
            Some((c2, j))
        },
    }
}

/// Consumes a quoted string at position `i`.
fn x_qstr(v: &Vec<char>, i: usize) -> (r: Option<(Vec<char>, usize)>)
    requires
        i <= v.len(),
    ensures
        match r {
            Some((c, j)) => i <= j && j <= v.len() && parse_qstr(v@.skip(i as int)) == Some(
                (c@, v@.skip(j as int)),
            ),
            None => parse_qstr(v@.skip(i as int)) is None,
        },
{
    if i == v.len() {
        return None;
    }
    if v[i] != '"' {
        proof {
            assert(v@.skip(i as int)[0] == v@[i as int]);
        }
        return None;
    }
    proof {
        assert(v@.skip(i as int)[0] == v@[i as int]);
        lemma_skip_skip(v@, i as int, 1);
    }
    x_str_body(v, i + 1)
}

/// The end of the digit run beginning at `i`.
fn scan_digits(v: &Vec<char>, i: usize) -> (j: usize)
    requires
        i <= v.len(),
    ensures
        i <= j <= v.len(),
        forall|m: int| i <= m < j ==> is_digit(#[trigger] v@[m]),
        j < v.len() ==> !is_digit(v@[j as int]),
{
    let mut j = i;
    while j < v.len()
        invariant
            i <= j <= v.len(),
            forall|m: int| i <= m < j ==> is_digit(#[trigger] v@[m]),
        decreases v.len() - j,
    {
        let d = digit_val_of(v[j]);
        if d >= 10 {
            return j;
        }
        j = j + 1;
    }
    j
}

/// Consumes a canonical decimal `u64` at position `i`.
fn x_u64(v: &Vec<char>, i: usize) -> (r: Option<(u64, usize)>)
    requires
        i <= v.len(),
    ensures
        match r {
            Some((m, j)) => i <= j && j <= v.len() && parse_u64_at(v@.skip(i as int)) == Some(
                (m, v@.skip(j as int)),
            ),
            None => parse_u64_at(v@.skip(i as int)) is None,
        },
{
    let ghost s = v@.skip(i as int);
    let j = scan_digits(v, i);
    let ghost ds = v@.subrange(i as int, j as int);
    proof {
        assert(forall|m: int| 0 <= m < ds.len() ==> ds[m] == v@[i + m]);
        assert(all_digits(ds));
        assert(v@.skip(j as int).len() == 0 || !is_digit(v@.skip(j as int)[0]));
        lemma_split_digits_concat(ds, v@.skip(j as int));
        assert(s =~= ds + v@.skip(j as int));
        assert(split_digits(s) == (ds, v@.skip(j as int)));
    }
    if j == i {
        proof {
            assert(ds.len() == 0);
        }
        return None;
    }
    if v[i] == '0' && j > i + 1 {
        proof {
            assert(ds[0] == '0' && ds.len() >= 2);
        }
        return None;
    }
    let mut acc: u64 = 0;
    let mut k: usize = i;
    proof {
        assert(ds.take(0) =~= Seq::<char>::empty());
    }
    while k < j
        invariant
            i <= k <= j <= v.len(),
            i < j,
            ds == v@.subrange(i as int, j as int),
            all_digits(ds),
            ds.len() == j - i,
            forall|m: int| 0 <= m < ds.len() ==> ds[m] == v@[i + m],
            acc == val(ds.take(k - i)),
            split_digits(v@.skip(i as int)) == (ds, v@.skip(j as int)),
            !(ds.len() >= 2 && ds[0] == '0'),
        decreases j - k,
    {
        let d = digit_val_of(v[k]);
        proof {
            assert(ds[k - i] == v@[k as int]);
            assert(is_digit(ds[k - i]));
            assert(ds.take(k - i + 1).drop_last() =~= ds.take(k - i));
            assert(ds.take(k - i + 1).last() == ds[k - i]);
            assert(val(ds.take(k - i + 1)) == val(ds.take(k - i)) * 10 + digit_val(ds[k - i]));
            lemma_val_nonneg(ds.take(k - i));
        }
        let next = match acc.checked_mul(10) {
            Some(a) => match a.checked_add(d) {
                Some(b) => Some(b),
                None => None,
            },
            None => None,
        };
        match next {
            Some(b) => {
                acc = b;
            },
            None => {
                proof {
                    assert(val(ds.take(k - i + 1)) > u64::MAX);
                    lemma_val_take_le(ds, k - i + 1, ds.len() as int);
                    assert(ds.take(ds.len() as int) =~= ds);
                    assert(val(ds) > u64::MAX);
                }
                return None;
            },
        }
        k = k + 1;
    }
    proof {
        assert(ds.take(ds.len() as int) =~= ds);
        assert(acc == val(ds));
    }
    Some((acc, j))
}

/// Consumes one session record at position `i`.
fn x_session(v: &Vec<char>, i: usize) -> (r: Option<(Session, usize)>)
    requires
        i <= v.len(),
    ensures
        match r {
            Some((sess, j)) => i <= j && j <= v.len() && parse_session_at(v@.skip(i as int))
                == Some((sess@, v@.skip(j as int))),
            None => parse_session_at(v@.skip(i as int)) is None,
        },
{
    let l1 = str_chars("{\"started\":");
    let s1 = match x_expect(v, i, &l1) {
        None => {
            return None;
        },
        Some(j) => j,
    };
    let (st, s2) = match x_qstr(v, s1) {
        None => {
            return None;
        },
        Some(p) => p,
    };
    let l2 = str_chars(",\"ended\":");
    let s3 = match x_expect(v, s2, &l2) {
        None => {
            return None;
        },
        Some(j) => j,
    };
    let (en, s4) = match x_qstr(v, s3) {
        None => {
            return None;
        },
        Some(p) => p,
    };
    let l3 = str_chars(",\"duration\":");
    let s5 = match x_expect(v, s4, &l3) {
        None => {
            return None;
        },
        Some(j) => j,
    };
    let (du, s6) = match x_qstr(v, s5) {
        None => {
            return None;
        },
        Some(p) => p,
    };
    let l4 = str_chars("}");
    let s7 = match x_expect(v, s6, &l4) {
        None => {
            return None;
        },
        Some(j) => j,
    };
    let sess = Session {
        started: chars_string(&st),
        ended: chars_string(&en),
        duration: chars_string(&du),
    };
    proof {
        assert(sess@ =~= SessionView { started: st@, ended: en@, duration: du@ });
    }
    Some((sess, s7))
}

/// Consumes session records and the closing bracket at position `i`.
fn x_sessions(v: &Vec<char>, i: usize) -> (r: Option<(Vec<Session>, usize)>)
    requires
        i <= v.len(),
    ensures
        match r {
            Some((ss, j)) => i <= j && j <= v.len() && parse_sessions_at(v@.skip(i as int))
                == Some((session_views(ss@), v@.skip(j as int))),
            None => parse_sessions_at(v@.skip(i as int)) is None,
        },
    decreases v.len() - i,
{
    let ghost s = v@.skip(i as int);
    if i == v.len() {
        proof {
            assert(s.len() == 0);
        }
        return None;
    }
    proof {
        assert(s[0] == v@[i as int]);
    }
    if v[i] == ']' {
        let empty: Vec<Session> = Vec::new();
        proof {
            lemma_skip_skip(v@, i as int, 1);
            assert(session_views(empty@) =~= Seq::<SessionView>::empty());
        }
        return Some((empty, i + 1));
    }
    match x_session(v, i) {
        None => None,
        Some((sess, r0)) => {
            if r0 == i {
                return None;
            }
            if r0 < v.len() && v[r0] == ',' {
                proof {
                    assert(v@.skip(r0 as int)[0] == v@[r0 as int]);
                }
                match x_sessions(v, r0 + 1) {
                    None => {
                        proof {
                            lemma_skip_skip(v@, r0 as int, 1);
                        }
                        None
                    },
                    Some((lst, j)) => {
                        if lst.len() == 0 {
                            proof {
                                lemma_skip_skip(v@, r0 as int, 1);
                            }
                            None
                        } else {
                            let mut out = lst;
                            out.insert(0, sess);
                            proof {
                                lemma_skip_skip(v@, r0 as int, 1);
                                assert(session_views(out@) =~= seq![sess@] + session_views(
                                    out@.skip(1),
                                ));
                                assert(out@.skip(1) =~= out@.subrange(1, out@.len() as int));
                            }
                            Some((out, j))
                        }
                    },
                }
            } else if r0 < v.len() && v[r0] == ']' {
                proof {
                    assert(v@.skip(r0 as int)[0] == v@[r0 as int]);
                    lemma_skip_skip(v@, r0 as int, 1);
                }
                let mut out: Vec<Session> = Vec::new();
                out.push(sess);
                proof {
                    assert(session_views(out@) =~= seq![sess@]);
                }
                Some((out, r0 + 1))
            } else {
                proof {
                    if r0 < v.len() {
                        assert(v@.skip(r0 as int)[0] == v@[r0 as int]);
                    } else {
                        assert(v@.skip(r0 as int).len() == 0);
                    }
                }
                None
            }
        },
    }
}

/// Consumes one task record at position `i`.
fn x_task(v: &Vec<char>, i: usize) -> (r: Option<(Task, usize)>)
    requires
        i <= v.len(),
    ensures
        match r {
            Some((t, j)) => i <= j && j <= v.len() && parse_task_at(v@.skip(i as int)) == Some(
                (t@, v@.skip(j as int)),
            ),
            None => parse_task_at(v@.skip(i as int)) is None,
        },
{
    let l1 = str_chars("{\"task\":");
    let s1 = match x_expect(v, i, &l1) {
        None => {
            return None;
        },
        Some(j) => j,
    };
    let (name, s2) = match x_qstr(v, s1) {
        None => {
            return None;
        },
        Some(p) => p,
    };
    let l2 = str_chars(",\"durationInMinutes\":");
    let s3 = match x_expect(v, s2, &l2) {
        None => {
            return None;
        },
        Some(j) => j,
    };
    let (m, s4) = match x_u64(v, s3) {
        None => {
            return None;
        },
        Some(p) => p,
    };
    let l3 = str_chars(",\"sessions\":[");
    let s5 = match x_expect(v, s4, &l3) {
        None => {
            return None;
        },
        Some(j) => j,
    };
    let (ss, s6) = match x_sessions(v, s5) {
        None => {
            return None;
        },
        Some(p) => p,
    };
    let l4 = str_chars("}");
    let s7 = match x_expect(v, s6, &l4) {
        None => {
            return None;
        },
        Some(j) => j,
    };
    let t = Task { name: chars_string(&name), minutes: m, sessions: ss };
    proof {
        assert(t@ =~= TaskView { name: name@, minutes: m, sessions: session_views(t.sessions@) });
    }
    Some((t, s7))
}

/// Consumes task records and the closing bracket at position `i`.
fn x_tasks(v: &Vec<char>, i: usize) -> (r: Option<(Vec<Task>, usize)>)
    requires
        i <= v.len(),
    ensures
        match r {
            Some((ts, j)) => i <= j && j <= v.len() && parse_tasks_at(v@.skip(i as int)) == Some(
                (task_views(ts@), v@.skip(j as int)),
            ),
            None => parse_tasks_at(v@.skip(i as int)) is None,
        },
    decreases v.len() - i,
{
    let ghost s = v@.skip(i as int);
    if i == v.len() {
        proof {
            assert(s.len() == 0);
        }
        return None;
    }
    proof {
        assert(s[0] == v@[i as int]);
    }
    if v[i] == ']' {
        let empty: Vec<Task> = Vec::new();
        proof {
            lemma_skip_skip(v@, i as int, 1);
            assert(task_views(empty@) =~= Seq::<TaskView>::empty());
        }
        return Some((empty, i + 1));
    }
    match x_task(v, i) {
        None => None,
        Some((t, r0)) => {
            if r0 == i {
                return None;
            }
            if r0 < v.len() && v[r0] == ',' {
                proof {
                    assert(v@.skip(r0 as int)[0] == v@[r0 as int]);
                }
                match x_tasks(v, r0 + 1) {
                    None => {
                        proof {
                            lemma_skip_skip(v@, r0 as int, 1);
                        }
                        None
                    },
                    Some((lst, j)) => {
                        if lst.len() == 0 {
                            proof {
                                lemma_skip_skip(v@, r0 as int, 1);
                            }
                            None
                        } else {
                            let mut out = lst;
                            out.insert(0, t);
                            proof {
                                lemma_skip_skip(v@, r0 as int, 1);
                                assert(task_views(out@) =~= seq![t@] + task_views(out@.skip(1)));
                                assert(out@.skip(1) =~= out@.subrange(1, out@.len() as int));
                            }
                            Some((out, j))
                        }
                    },
                }
            } else if r0 < v.len() && v[r0] == ']' {
                proof {
                    assert(v@.skip(r0 as int)[0] == v@[r0 as int]);
                    lemma_skip_skip(v@, r0 as int, 1);
                }
                let mut out: Vec<Task> = Vec::new();
                out.push(t);
                proof {
                    assert(task_views(out@) =~= seq![t@]);
                }
                Some((out, r0 + 1))
            } else {
                proof {
                    if r0 < v.len() {
                        assert(v@.skip(r0 as int)[0] == v@[r0 as int]);
                    } else {
                        assert(v@.skip(r0 as int).len() == 0);
                    }
                }
                None
            }
        },
    }
}

/// Consumes the active marker at position `i`.
fn x_current(v: &Vec<char>, i: usize) -> (r: Option<(Option<ActiveSession>, usize)>)
    requires
        i <= v.len(),
    ensures
        match r {
            Some((cur, j)) => i <= j && j <= v.len() && parse_current_at(v@.skip(i as int))
                == Some((crate::model::active_view(cur), v@.skip(j as int))),
            None => parse_current_at(v@.skip(i as int)) is None,
        },
{
    let ghost s = v@.skip(i as int);
    proof {
        if i < v.len() {
            assert(s[0] == v@[i as int]);
        }
    }
    if i < v.len() && v[i] == 'n' {
        let l = str_chars("null");
        match x_expect(v, i, &l) {
            None => None,
            Some(j) => Some((None, j)),
        }
    } else {
        let l1 = str_chars("{\"task\":");
        let s1 = match x_expect(v, i, &l1) {
            None => {
                return None;
            },
            Some(j) => j,
        };
        let (t, s2) = match x_qstr(v, s1) {
            None => {
                return None;
            },
            Some(p) => p,
        };
        let l2 = str_chars(",\"session\":{\"started\":");
        let s3 = match x_expect(v, s2, &l2) {
            None => {
                return None;
            },
            Some(j) => j,
        };
        let (st, s4) = match x_qstr(v, s3) {
            None => {
                return None;
            },
            Some(p) => p,
        };
        let l3 = str_chars("}}");
        let s5 = match x_expect(v, s4, &l3) {
            None => {
                return None;
            },
            Some(j) => j,
        };
        let a = ActiveSession { task: chars_string(&t), started: chars_string(&st) };
        proof {
            assert(a@ =~= ActiveView { task: t@, started: st@ });
        }
        Some((Some(a), s5))
    }
}

/// Reads a document back from its stable textual form. Empty text is the
/// state of first use; anything else must be exactly a serialized document,
/// or the result is `CorruptData`.
pub fn load_document(s: &str) -> (r: Result<ShiganConfig, TrackerError>)
    ensures
        s@.len() == 0 ==> (r matches Ok(d) && d@ == empty_doc()),
        s@.len() != 0 ==> match r {
            Ok(d) => parse_doc(s@) == Some(d@),
            Err(e) => e == TrackerError::CorruptData && parse_doc(s@) is None,
        },
{
    let v = str_chars(s);
    if v.len() == 0 {
        return Ok(ShiganConfig::new_empty());
    }
    proof {
        assert(v@.skip(0) =~= v@);
    }
    let l1 = str_chars("{\"current\":");
    let s1 = match x_expect(&v, 0, &l1) {
        None => {
            return Err(TrackerError::CorruptData);
        },
        Some(j) => j,
    };
    let (cur, s2) = match x_current(&v, s1) {
        None => {
            return Err(TrackerError::CorruptData);
        },
        Some(p) => p,
    };
    let l2 = str_chars(",\"subjects\":[");
    let s3 = match x_expect(&v, s2, &l2) {
        None => {
            return Err(TrackerError::CorruptData);
        },
        Some(j) => j,
    };
    let (ts, s4) = match x_tasks(&v, s3) {
        None => {
            return Err(TrackerError::CorruptData);
        },
        Some(p) => p,
    };
    let l3 = str_chars("}");
    let s5 = match x_expect(&v, s4, &l3) {
        None => {
            return Err(TrackerError::CorruptData);
        },
        Some(j) => j,
    };
    if s5 != v.len() {
        proof {
            assert(v@.skip(s5 as int).len() != 0);
        }
        return Err(TrackerError::CorruptData);
    }
    let d = ShiganConfig { current: cur, subjects: ts };
    proof {
        assert(v@.skip(s5 as int).len() == 0);
        assert(d@ =~= DocView {
            current: crate::model::active_view(d.current),
            subjects: task_views(d.subjects@),
        });
        assert(parse_doc(s@) == Some(d@));
    }
    Ok(d)
}

/// Law: the parser accepts exactly the serializer's image — some document
/// loads from a text if and only if some document was saved as that text.
pub proof fn lemma_parse_doc_characterization(s: Seq<char>)
    ensures
        (parse_doc(s) is Some) <==> exists|d: DocView| ser_doc(d) == s,
{
    if parse_doc(s) is Some {
        let d = parse_doc(s).unwrap();
        lemma_parse_doc_sound(s, d);
        assert(ser_doc(d) == s);
    }
    if exists|d: DocView| ser_doc(d) == s {
        let d = choose|d: DocView| ser_doc(d) == s;
        lemma_ser_doc_parses(d);
    }
}

} // verus!
