//! The line protocol of a running web app's control socket, as seen by a
//! monitoring client: `hello v1 <pid>`, `unread <n>`, `state k=v …`.

use vstd::prelude::*;
use crate::text::{
    chars_of, dec, eq_chars, join, parse_i64, parse_i64_spec, parse_u32, parse_u32_spec, seqs_of, split_once,
    starts_with, sub_chars, trim, trim_chars, words, words_of,
};

verus! {

/// The boolean state flags of a `state …` line.
#[derive(Clone, Copy)]
pub struct LiveFlags {
    pub hidden: bool,
    pub muted: bool,
    pub dnd: bool,
    pub suspend: bool,
    pub autostart: bool,
}

/// All flags off.
pub open spec fn flags_off() -> LiveFlags {
    LiveFlags { hidden: false, muted: false, dnd: false, suspend: false, autostart: false }
}

impl Default for LiveFlags {
    /// All flags off.
    fn default() -> (r: Self)
        ensures
            r == flags_off(),
    {
        LiveFlags { hidden: false, muted: false, dnd: false, suspend: false, autostart: false }
    }
}

/// An event from the runtime.
pub enum LiveEvent {
    /// The greeting, with the runtime's process id (0 when unreadable).
    Hello(i64),
    /// The unread count (0 when unreadable).
    Unread(u32),
    /// The state flags.
    State(LiveFlags),
    /// Any other line.
    Other,
    /// The connection ended.
    Disconnected,
}

/// `f` after one `key=value` word: a known key is set to whether the value
/// is `1`; other words leave it.
pub open spec fn apply_word(f: LiveFlags, word: Seq<char>) -> LiveFlags {
    match split_once(word, '=') {
        Some((key, value)) => {
            let on = value == seq!['1'];
            if key == "hidden"@ {
                LiveFlags { hidden: on, ..f }
            } else if key == "muted"@ {
                LiveFlags { muted: on, ..f }
            } else if key == "dnd"@ {
                LiveFlags { dnd: on, ..f }
            } else if key == "suspend"@ {
                LiveFlags { suspend: on, ..f }
            } else if key == "autostart"@ {
                LiveFlags { autostart: on, ..f }
            } else {
                f
            }
        },
        None => f,
    }
}

/// The flags after the words `ws`, in order, starting from all off.
pub open spec fn flags_of(ws: Seq<Seq<char>>) -> LiveFlags
    decreases ws.len(),
{
    if ws.len() == 0 {
        flags_off()
    } else {
        apply_word(flags_of(ws.drop_last()), ws.last())
    }
}

/// The flags set by the words `ws`.
fn parse_flags_words(ws: &Vec<Vec<char>>) -> (r: LiveFlags)
    ensures
        r == flags_of(seqs_of(ws@)),
{
    let ghost wv = seqs_of(ws@);
    let mut flags = LiveFlags::default();
    let hidden = chars_of("hidden");
    let muted = chars_of("muted");
    let dnd = chars_of("dnd");
    let suspend = chars_of("suspend");
    let autostart = chars_of("autostart");
    let mut i: usize = 0;
    assert(wv.take(0) =~= Seq::<Seq<char>>::empty());
    while i < ws.len()
        invariant
            i <= ws.len(),
            wv == seqs_of(ws@),
            hidden@ == "hidden"@,
            muted@ == "muted"@,
            dnd@ == "dnd"@,
            suspend@ == "suspend"@,
            autostart@ == "autostart"@,
            flags == flags_of(wv.take(i as int)),
        decreases ws.len() - i,
    {
        proof {
            assert(wv.take(i + 1).drop_last() =~= wv.take(i as int));
            assert(wv.take(i + 1).last() == wv[i as int]);
        }
        let w = &ws[i];
        assert(w@ == wv[i as int]);
        let eq = crate::text::find_char_in(w, '=');
        if eq < w.len() {
            let key = sub_chars(w, 0, eq);
            let value = sub_chars(w, eq + 1, w.len());
            assert(key@ =~= w@.take(eq as int));
            assert(value@ =~= w@.skip(eq + 1));
            let on = value.len() == 1 && value[0] == '1';
            assert(on == (value@ == seq!['1'])) by {
                if value.len() == 1 {
                    if value[0] == '1' {
                        assert(value@ =~= seq!['1']);
                    }
                }
            }
            if eq_chars(&key, &hidden) {
                flags.hidden = on;
            } else if eq_chars(&key, &muted) {
                flags.muted = on;
            } else if eq_chars(&key, &dnd) {
                flags.dnd = on;
            } else if eq_chars(&key, &suspend) {
                flags.suspend = on;
            } else if eq_chars(&key, &autostart) {
                flags.autostart = on;
            }
        }
        i = i + 1;
    }
    assert(wv.take(ws.len() as int) =~= wv);
    flags
}

/// The flags of the rest of a `state …` line.
pub fn parse_flags(rest: &str) -> (r: LiveFlags)
    ensures
        r == flags_of(words(rest@)),
{
    let ws = words_of(&chars_of(rest));
    parse_flags_words(&ws)
}

/// The event a line stands for. The line is trimmed; the number after
/// `hello v1 ` (`i64`) or `unread ` (`u32`) is read after trimming, and is 0
/// when it does not parse.
pub open spec fn event_spec(line: Seq<char>) -> LiveEvent {
    let t = trim(line);
    if "hello v1 "@.is_prefix_of(t) {
        LiveEvent::Hello(
            match parse_i64_spec(trim(t.skip("hello v1 "@.len() as int))) {
                Some(x) => x,
                None => 0,
            },
        )
    } else if "unread "@.is_prefix_of(t) {
        LiveEvent::Unread(
            match parse_u32_spec(trim(t.skip("unread "@.len() as int))) {
                Some(x) => x,
                None => 0,
            },
        )
    } else if "state "@.is_prefix_of(t) {
        LiveEvent::State(flags_of(words(t.skip("state "@.len() as int))))
    } else {
        LiveEvent::Other
    }
}

/// Reads one line from the runtime.
pub fn parse(line: &str) -> (r: LiveEvent)
    ensures
        r == event_spec(line@),
{
    let t = trim_chars(&chars_of(line));
    let hello = chars_of("hello v1 ");
    let unread = chars_of("unread ");
    let state = chars_of("state ");
    if starts_with(&t, &hello) {
        let rest = trim_chars(&sub_chars(&t, hello.len(), t.len()));
        assert(t@.subrange(hello.len() as int, t.len() as int) =~= t@.skip(hello.len() as int));
        LiveEvent::Hello(
            match parse_i64(&rest) {
                Some(x) => x,
                None => 0,
            },
        )
    } else if starts_with(&t, &unread) {
        let rest = trim_chars(&sub_chars(&t, unread.len(), t.len()));
        assert(t@.subrange(unread.len() as int, t.len() as int) =~= t@.skip(unread.len() as int));
        LiveEvent::Unread(
            match parse_u32(&rest) {
                Some(x) => x,
                None => 0,
            },
        )
    } else if starts_with(&t, &state) {
        let rest = sub_chars(&t, state.len(), t.len());
        assert(rest@ =~= t@.skip(state.len() as int));
        let ws = words_of(&rest);
        LiveEvent::State(parse_flags_words(&ws))
    } else {
        LiveEvent::Other
    }
}

/// `1` for on, `0` for off, as the runtime writes a flag.
pub open spec fn bit(b: bool) -> Seq<char> {
    if b {
        seq!['1']
    } else {
        seq!['0']
    }
}

/// The `key=bit` word for one flag.
pub open spec fn flag_word(key: Seq<char>, b: bool) -> Seq<char> {
    key + seq!['='] + bit(b)
}

/// The words of the `state` line the runtime sends for `f`.
pub open spec fn state_words(f: LiveFlags) -> Seq<Seq<char>> {
    seq![
        flag_word("hidden"@, f.hidden),
        flag_word("muted"@, f.muted),
        flag_word("dnd"@, f.dnd),
        flag_word("suspend"@, f.suspend),
        flag_word("autostart"@, f.autostart),
    ]
}

/// The `state` line the runtime sends for `f`.
pub open spec fn state_line(f: LiveFlags) -> Seq<char> {
    "state "@ + join(state_words(f), seq![' '])
}

proof fn lemma_word_ok(key: Seq<char>, b: bool)
    requires
        key.len() > 0,
        crate::text::ws_free(key),
        crate::text::free_of(key, '='),
    ensures
        flag_word(key, b).len() > 0,
        crate::text::ws_free(flag_word(key, b)),
        split_once(flag_word(key, b), '=') == Some((key, bit(b))),
        (bit(b) == seq!['1']) == b,
{
    let w = flag_word(key, b);
    assert forall|k: int| 0 <= k < w.len() implies !crate::text::is_ws(#[trigger] w[k]) by {
        if k < key.len() {
            assert(w[k] == key[k]);
        }
    }
    crate::text::lemma_split_once_at(key, bit(b), '=');
    if !b {
        assert(bit(b)[0] != '1');
    }
}

/// The runtime's messages read back as what they report: `state` with the
/// five flags gives those flags, `unread <n>` gives the count `n`, and
/// `hello v1 <pid>` gives the process id.
pub proof fn protocol_round_trip(f: LiveFlags, n: u32, pid: i64)
    requires
        pid >= 0,
    ensures
        event_spec(state_line(f)) == LiveEvent::State(f),
        event_spec("unread "@ + dec(n as nat)) == LiveEvent::Unread(n),
        event_spec("hello v1 "@ + dec(pid as nat)) == LiveEvent::Hello(pid),
{
    reveal_strlit("hidden");
    reveal_strlit("muted");
    reveal_strlit("dnd");
    reveal_strlit("suspend");
    reveal_strlit("autostart");
    reveal_strlit("state ");
    reveal_strlit("unread ");
    reveal_strlit("hello v1 ");
    // The state line.
    let ws = state_words(f);
    assert forall|i: int| 0 <= i < ws.len() implies #[trigger] ws[i].len() > 0 && crate::text::ws_free(ws[i]) by {
        if i == 0 {
            lemma_word_ok("hidden"@, f.hidden);
        } else if i == 1 {
            lemma_word_ok("muted"@, f.muted);
        } else if i == 2 {
            lemma_word_ok("dnd"@, f.dnd);
        } else if i == 3 {
            lemma_word_ok("suspend"@, f.suspend);
        } else {
            lemma_word_ok("autostart"@, f.autostart);
        }
    }
    lemma_word_ok("hidden"@, f.hidden);
    lemma_word_ok("muted"@, f.muted);
    lemma_word_ok("dnd"@, f.dnd);
    lemma_word_ok("suspend"@, f.suspend);
    lemma_word_ok("autostart"@, f.autostart);
    crate::text::lemma_words_join(ws);
    let body = join(ws, seq![' ']);
    let line = state_line(f);
    assert(body.last() == bit(f.autostart)[0]) by {
        let d = ws.drop_last();
        assert(body == join(d, seq![' ']) + seq![' '] + ws.last());
    }
    assert(line.last() == body.last());
    crate::text::lemma_trimmed_by_ends(line);
    assert(line.skip(6) =~= body);
    assert("state "@.is_prefix_of(line)) by {
        assert(line.subrange(0, 6) =~= "state "@);
    }
    assert(!"hello v1 "@.is_prefix_of(line)) by {
        assert(line[0] != "hello v1 "@[0]);
    }
    assert(!"unread "@.is_prefix_of(line)) by {
        assert(line[0] != "unread "@[0]);
    }
    let f0 = flags_off();
    let f1 = apply_word(f0, ws[0]);
    let f2 = apply_word(f1, ws[1]);
    let f3 = apply_word(f2, ws[2]);
    let f4 = apply_word(f3, ws[3]);
    let f5 = apply_word(f4, ws[4]);
    assert(ws.take(1).drop_last() =~= ws.take(0));
    assert(ws.take(2).drop_last() =~= ws.take(1));
    assert(ws.take(3).drop_last() =~= ws.take(2));
    assert(ws.take(4).drop_last() =~= ws.take(3));
    assert(ws.drop_last() =~= ws.take(4));
    assert(flags_of(ws.take(0)) == f0);
    assert(flags_of(ws.take(1)) == f1);
    assert(flags_of(ws.take(2)) == f2);
    assert(flags_of(ws.take(3)) == f3);
    assert(flags_of(ws.take(4)) == f4);
    assert(flags_of(ws) == f5);
    assert(f5 == f);
    // The unread count.
    let u = "unread "@ + dec(n as nat);
    crate::text::lemma_dec_value(n as nat);
    assert(dec(n as nat).len() > 0);
    assert(u.last() == dec(n as nat).last());
    assert(crate::text::is_digit(dec(n as nat)[dec(n as nat).len() - 1]));
    crate::text::lemma_trimmed_by_ends(u);
    assert(u.skip(7) =~= dec(n as nat));
    assert("unread "@.is_prefix_of(u)) by {
        assert(u.subrange(0, 7) =~= "unread "@);
    }
    assert(!"hello v1 "@.is_prefix_of(u)) by {
        assert(u[0] != "hello v1 "@[0]);
    }
    crate::text::lemma_trimmed_by_ends(dec(n as nat));
    assert(dec(n as nat)[0] != '+') by {
        assert(crate::text::is_digit(dec(n as nat)[0]));
    }
    // The greeting.
    let h = "hello v1 "@ + dec(pid as nat);
    crate::text::lemma_dec_value(pid as nat);
    assert(h.last() == dec(pid as nat).last());
    assert(crate::text::is_digit(dec(pid as nat)[dec(pid as nat).len() - 1]));
    crate::text::lemma_trimmed_by_ends(h);
    assert(h.skip(9) =~= dec(pid as nat));
    assert("hello v1 "@.is_prefix_of(h)) by {
        assert(h.subrange(0, 9) =~= "hello v1 "@);
    }
    crate::text::lemma_trimmed_by_ends(dec(pid as nat));
    assert(crate::text::is_digit(dec(pid as nat)[0]));
}

/// The running-status line the live panel shows after `event`; `None` when
/// the event leaves it.
pub open spec fn status_spec(event: LiveEvent) -> Option<Seq<char>> {
    match event {
        LiveEvent::Hello(pid) => Some("Running · pid "@ + crate::forms::idec(pid as int)),
        LiveEvent::State(f) => Some(if f.hidden {
            "Running · window hidden"@
        } else {
            "Running · window shown"@
        }),
        LiveEvent::Disconnected => Some("Not running"@),
        _ => None,
    }
}

/// The running-status line after `event`.
pub fn status_subtitle(event: &LiveEvent) -> (r: Option<String>)
    ensures
        crate::urls::opt_view(r) == status_spec(*event),
{
    match event {
        LiveEvent::Hello(pid) => {
            let mut v = chars_of("Running · pid ");
            crate::text::push_all(&mut v, &crate::forms::idec_chars(*pid));
            Some(crate::text::string_of(&v))
        },
        LiveEvent::State(f) => Some(
            crate::text::string_of(
                &chars_of(
                    if f.hidden {
                        "Running · window hidden"
                    } else {
                        "Running · window shown"
                    },
                ),
            ),
        ),
        LiveEvent::Disconnected => Some(crate::text::string_of(&chars_of("Not running"))),
        _ => None,
    }
}

} // verus!
