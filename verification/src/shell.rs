//! The shell's line editor.
use vstd::prelude::*;
use vstd::string::StrSliceExecFns;
use crate::session::{Run, cons};
use crate::text::{utf8, push_str};

verus! {

broadcast use crate::session::lemma_cons;

// ── Strings ────────────────────────────────────────────────────────────────

/// A character with the Unicode property White_Space.
pub open spec fn is_white_space(c: char) -> bool {
    let n = c as u32;
    ||| 0x09 <= n <= 0x0D
    ||| n == 0x20
    ||| n == 0x85
    ||| n == 0xA0
    ||| n == 0x1680
    ||| 0x2000 <= n <= 0x200A
    ||| n == 0x2028
    ||| n == 0x2029
    ||| n == 0x202F
    ||| n == 0x205F
    ||| n == 0x3000
}

/// Without the white space in front.
pub open spec fn trimmed_start(s: Seq<char>) -> Seq<char>
    decreases s.len(),
{
    if s.len() > 0 && is_white_space(s[0]) {
        trimmed_start(s.drop_first())
    } else {
        s
    }
}

/// Without the white space behind.
pub open spec fn trimmed_end(s: Seq<char>) -> Seq<char>
    decreases s.len(),
{
    if s.len() > 0 && is_white_space(s.last()) {
        trimmed_end(s.drop_last())
    } else {
        s
    }
}

/// Without white space at both ends.
pub open spec fn trimmed(s: Seq<char>) -> Seq<char> {
    trimmed_end(trimmed_start(s))
}

fn white_space(c: char) -> (r: bool)
    ensures
        r == is_white_space(c),
{
    let n: u32 = c as u32;
    (0x09 <= n && n <= 0x0D) || n == 0x20 || n == 0x85 || n == 0xA0 || n == 0x1680 || (0x2000 <= n
        && n <= 0x200A) || n == 0x2028 || n == 0x2029 || n == 0x202F || n == 0x205F || n == 0x3000
}

/// Takes the white space off both ends.
pub fn trim<'a>(s: &'a str) -> (r: &'a str)
    ensures
        r@ == trimmed(s@),
{
    let n: usize = s.unicode_len();
    let ghost all = s@;
    let mut from: usize = 0;
    assert(all.skip(0) =~= all);
    while from < n && white_space(s.get_char(from))
        invariant
            from <= n,
            n == all.len(),
            all == s@,
            trimmed_start(all.skip(from as int)) == trimmed_start(all),
        decreases n - from,
    {
        assert(all.skip(from as int).drop_first() =~= all.skip(from + 1));
        from = from + 1;
    }
    let ghost start = all.skip(from as int);
    assert(start == trimmed_start(all));
    let mut to: usize = n;
    assert(all.subrange(from as int, n as int) =~= start);
    while to > from && white_space(s.get_char(to - 1))
        invariant
            from <= to <= n,
            n == all.len(),
            all == s@,
            trimmed_end(all.subrange(from as int, to as int)) == trimmed_end(start),
        decreases to,
    {
        assert(all.subrange(from as int, to as int).drop_last() =~= all.subrange(
            from as int,
            to - 1,
        ));
        to = to - 1;
    }
    s.substring_char(from, to)
}

/// `core::str::from_utf8`: the string with these bytes, if they are valid UTF-8.
#[verifier::external_body]
fn str_from_utf8<'a>(bytes: &'a [u8]) -> (s: Option<&'a str>)
    ensures
        match s {
            Some(s) => vstd::utf8::valid_utf8(bytes@) && utf8(s) == bytes@,
            None => !vstd::utf8::valid_utf8(bytes@),
        },
{
    match core::str::from_utf8(bytes) {
        Ok(s) => Some(s),
        Err(_) => None,
    }
}

/// The characters of a byte string, if it is valid UTF-8.
pub open spec fn decoded(bytes: Seq<u8>) -> Option<Seq<char>> {
    if vstd::utf8::valid_utf8(bytes) {
        Some(vstd::utf8::decode_utf8(bytes))
    } else {
        None
    }
}

/// The string with these bytes, if they are valid UTF-8.
pub fn decode<'a>(bytes: &'a [u8]) -> (s: Option<&'a str>)
    ensures
        match s {
            Some(s) => decoded(bytes@) == Some(s@),
            None => decoded(bytes@) is None,
        },
{
    let s: Option<&'a str> = str_from_utf8(bytes);
    proof {
        if let Some(s) = s {
            vstd::utf8::encode_utf8_decode_utf8(s@);
        }
    }
    s
}

// ── Editing ────────────────────────────────────────────────────────────────

/// The longest line that is kept.
pub const LINE_MAX: usize = 127;

/// What a key does to the line.
#[derive(Clone, Copy, PartialEq, Eq, Structural, Debug)]
pub enum Edit {
    /// The line is complete.
    Submit,
    /// Its last byte goes.
    Erase,
    /// A byte is appended.
    Add(u8),
    Ignore,
}

/// What a key does to a line of `len` bytes: carriage return and line feed complete
/// it, backspace and delete take back its last byte, everything else is appended as
/// long as there is room.
pub open spec fn edit(len: nat, c: u8) -> Edit {
    if c == 0x0D || c == 0x0A {
        Edit::Submit
    } else if c == 0x08 || c == 0x7F {
        if len > 0 {
            Edit::Erase
        } else {
            Edit::Ignore
        }
    } else if len < LINE_MAX {
        Edit::Add(c)
    } else {
        Edit::Ignore
    }
}

fn get_edit(len: usize, c: u8) -> (e: Edit)
    ensures
        e == edit(len as nat, c),
{
    match c {
        0x0D | 0x0A => Edit::Submit,
        0x08 | 0x7F => if len > 0 {
            Edit::Erase
        } else {
            Edit::Ignore
        },
        _ => if len < LINE_MAX {
            Edit::Add(c)
        } else {
            Edit::Ignore
        },
    }
}

/// The command on a line: the line without white space at its ends, or nothing where
/// it is not valid UTF-8.
pub open spec fn command(line: Seq<u8>) -> Seq<char> {
    match decoded(line) {
        Some(s) => trimmed(s),
        None => Seq::empty(),
    }
}

fn get_command(line: &Vec<u8>) -> (cmd: String)
    ensures
        cmd@ == command(line@),
{
    match decode(line.as_slice()) {
        Some(s) => trim(s).to_owned(),
        None => String::new(),
    }
}

// ── The shell ──────────────────────────────────────────────────────────────

/// What the shell wants done.
#[derive(PartialEq, Eq, Debug)]
pub enum ShellOp {
    Print(Vec<u8>),
    /// Wait for a key from the guest or the UART; the reply is the key.
    Key,
    /// Wait for a key from the UART; the reply is the key.
    UartKey,
    /// Send the byte over the UART, and show the character of that code.
    Echo(u8),
    Execute(String),
}

/// [`ShellOp`] with its texts as sequences.
pub enum ShellOpView {
    Print(Seq<u8>),
    Key,
    UartKey,
    Echo(u8),
    Execute(Seq<char>),
}

impl View for ShellOp {
    type V = ShellOpView;

    open spec fn view(&self) -> ShellOpView {
        match *self {
            ShellOp::Print(text) => ShellOpView::Print(text@),
            ShellOp::Key => ShellOpView::Key,
            ShellOp::UartKey => ShellOpView::UartKey,
            ShellOp::Echo(c) => ShellOpView::Echo(c),
            ShellOp::Execute(line) => ShellOpView::Execute(line@),
        }
    }
}

pub type ShellRun = Run<ShellOpView, u8, ()>;

pub open spec fn key_op(uart_only: bool) -> ShellOpView {
    if uart_only {
        ShellOpView::UartKey
    } else {
        ShellOpView::Key
    }
}

/// What the shell prints first when it has only the UART.
pub open spec fn intro_text() -> Seq<u8> {
    utf8("[kernel] UART-only mode. Connect serial cable (115200 8N1).\n") + utf8("\n")
}

/// Prompts for a line.
pub open spec fn prompt_run(uart_only: bool, h: Seq<u8>) -> ShellRun
    decreases h.len(),
{
    if h.len() == 0 {
        Run::Wants(ShellOpView::Print(utf8("ai-os> ")))
    } else {
        line_run(uart_only, Seq::empty(), h.drop_first())
    }
}

/// Reads keys, with `line` typed so far.
pub open spec fn line_run(uart_only: bool, line: Seq<u8>, h: Seq<u8>) -> ShellRun
    decreases h.len(),
{
    if h.len() == 0 {
        Run::Wants(key_op(uart_only))
    } else {
        match edit(line.len(), h[0]) {
            Edit::Submit => submit_run(uart_only, line, h.drop_first()),
            Edit::Erase => erase_run(uart_only, line.drop_last(), h.drop_first()),
            Edit::Add(c) => echo_run(uart_only, line.push(c), c, h.drop_first()),
            Edit::Ignore => line_run(uart_only, line, h.drop_first()),
        }
    }
}

/// Takes a character off the display, and goes on with `line`.
pub open spec fn erase_run(uart_only: bool, line: Seq<u8>, h: Seq<u8>) -> ShellRun
    decreases h.len(),
{
    if h.len() == 0 {
        Run::Wants(ShellOpView::Print(utf8("\x08 \x08")))
    } else {
        line_run(uart_only, line, h.drop_first())
    }
}

/// Shows a character, and goes on with `line`.
pub open spec fn echo_run(uart_only: bool, line: Seq<u8>, c: u8, h: Seq<u8>) -> ShellRun
    decreases h.len(),
{
    if h.len() == 0 {
        Run::Wants(ShellOpView::Echo(c))
    } else {
        line_run(uart_only, line, h.drop_first())
    }
}

/// Ends the line on the display, and has it executed.
pub open spec fn submit_run(uart_only: bool, line: Seq<u8>, h: Seq<u8>) -> ShellRun
    decreases h.len(),
{
    if h.len() == 0 {
        Run::Wants(ShellOpView::Print(utf8("\n")))
    } else {
        execute_run(uart_only, line, h.drop_first())
    }
}

/// Has the line executed, and prompts again.
pub open spec fn execute_run(uart_only: bool, line: Seq<u8>, h: Seq<u8>) -> ShellRun
    decreases h.len(),
{
    if h.len() == 0 {
        Run::Wants(ShellOpView::Execute(command(line)))
    } else {
        prompt_run(uart_only, h.drop_first())
    }
}

/// The shell that has only the UART.
pub open spec fn uart_shell_run(h: Seq<u8>) -> ShellRun {
    if h.len() == 0 {
        Run::Wants(ShellOpView::Print(intro_text()))
    } else {
        prompt_run(true, h.drop_first())
    }
}

#[derive(Clone, Copy, PartialEq, Eq, Structural, Debug)]
enum ShellStage {
    Intro,
    Prompt,
    Key,
    Erase,
    Echo(u8),
    NewLine,
    Execute,
}

/// A shell under way. It has no end.
pub struct Shell {
    uart_only: bool,
    line: Vec<u8>,
    stage: ShellStage,
}

fn text_of(s: &str) -> (out: Vec<u8>)
    ensures
        out@ == utf8(s),
{
    let mut out: Vec<u8> = Vec::new();
    push_str(&mut out, s);
    assert(out@ =~= utf8(s));
    out
}

impl Shell {
    pub closed spec fn wf(self) -> bool {
        self.stage == ShellStage::Intro ==> self.uart_only
    }

    /// What happens from here on.
    pub closed spec fn run(self, h: Seq<u8>) -> ShellRun {
        match self.stage {
            ShellStage::Intro => uart_shell_run(h),
            ShellStage::Prompt => prompt_run(self.uart_only, h),
            ShellStage::Key => line_run(self.uart_only, self.line@, h),
            ShellStage::Erase => erase_run(self.uart_only, self.line@, h),
            ShellStage::Echo(c) => echo_run(self.uart_only, self.line@, c, h),
            ShellStage::NewLine => submit_run(self.uart_only, self.line@, h),
            ShellStage::Execute => execute_run(self.uart_only, self.line@, h),
        }
    }

    /// What is wanted next.
    pub fn next(&self) -> (op: ShellOp)
        ensures
            self.run(Seq::empty()) == ShellRun::Wants(op@),
    {
        match self.stage {
            ShellStage::Intro => {
                let mut out: Vec<u8> = Vec::new();
                push_str(
                    &mut out,
                    "[kernel] UART-only mode. Connect serial cable (115200 8N1).\n",
                );
                push_str(&mut out, "\n");
                assert(out@ =~= intro_text());
                ShellOp::Print(out)
            },
            ShellStage::Prompt => ShellOp::Print(text_of("ai-os> ")),
            ShellStage::Key => if self.uart_only {
                ShellOp::UartKey
            } else {
                ShellOp::Key
            },
            ShellStage::Erase => ShellOp::Print(text_of("\x08 \x08")),
            ShellStage::Echo(c) => ShellOp::Echo(c),
            ShellStage::NewLine => ShellOp::Print(text_of("\n")),
            ShellStage::Execute => ShellOp::Execute(get_command(&self.line)),
        }
    }

    /// Goes on with the key; after anything else the argument does not matter.
    pub fn answer(&mut self, r: u8)
        requires
            old(self).wf(),
        ensures
            final(self).wf(),
            forall|h: Seq<u8>|
                #![trigger final(self).run(h)]
                #![trigger old(self).run(cons(r, h))]
                final(self).run(h) == old(self).run(cons(r, h)),
    {
        match self.stage {
            ShellStage::Intro => {
                self.stage = ShellStage::Prompt;
            },
            ShellStage::Prompt => {
                self.line = Vec::new();
                assert(self.line@ =~= Seq::empty());
                self.stage = ShellStage::Key;
            },
            ShellStage::Key => match get_edit(self.line.len(), r) {
                Edit::Submit => {
                    self.stage = ShellStage::NewLine;
                },
                Edit::Erase => {
                    let ghost before = self.line@;
                    self.line.pop();
                    assert(self.line@ =~= before.drop_last());
                    self.stage = ShellStage::Erase;
                },
                Edit::Add(c) => {
                    self.line.push(c);
                    self.stage = ShellStage::Echo(c);
                },
                Edit::Ignore => {},
            },
            ShellStage::Erase | ShellStage::Echo(_) => {
                self.stage = ShellStage::Key;
            },
            ShellStage::NewLine => {
                self.stage = ShellStage::Execute;
            },
            ShellStage::Execute => {
                self.stage = ShellStage::Prompt;
            },
        }
    }
}

/// The shell with keys from the guest, or from the UART.
pub fn shell() -> (m: Shell)
    ensures
        m.wf(),
        forall|h: Seq<u8>| #[trigger] m.run(h) == prompt_run(false, h),
{
    Shell { uart_only: false, line: Vec::new(), stage: ShellStage::Prompt }
}

/// The shell with keys from the UART alone.
pub fn shell_uart_only() -> (m: Shell)
    ensures
        m.wf(),
        forall|h: Seq<u8>| #[trigger] m.run(h) == uart_shell_run(h),
{
    Shell { uart_only: true, line: Vec::new(), stage: ShellStage::Intro }
}

// ── What is executed ───────────────────────────────────────────────────────

/// The line after some keys that do not complete it.
pub open spec fn edited(line: Seq<u8>, keys: Seq<u8>) -> Seq<u8>
    decreases keys.len(),
{
    if keys.len() == 0 {
        line
    } else {
        edited(
            match edit(line.len(), keys[0]) {
                Edit::Erase => line.drop_last(),
                Edit::Add(c) => line.push(c),
                _ => line,
            },
            keys.drop_first(),
        )
    }
}

/// The replies that the shell gets while these keys are pressed: each key, and
/// something for what it makes the shell show.
pub open spec fn typing(line: Seq<u8>, keys: Seq<u8>) -> Seq<u8>
    decreases keys.len(),
{
    if keys.len() == 0 {
        Seq::empty()
    } else {
        let after = match edit(line.len(), keys[0]) {
            Edit::Erase => line.drop_last(),
            Edit::Add(c) => line.push(c),
            _ => line,
        };
        let shown = edit(line.len(), keys[0]) != Edit::Ignore;
        cons(
            keys[0],
            if shown {
                cons(0, typing(after, keys.drop_first()))
            } else {
                typing(after, keys.drop_first())
            },
        )
    }
}

/// Whatever keys are pressed, the shell goes on with the line that they make.
pub proof fn lemma_typing(uart_only: bool, line: Seq<u8>, keys: Seq<u8>, h: Seq<u8>)
    requires
        forall|i: int| 0 <= i < keys.len() ==> keys[i] != 0x0D && #[trigger] keys[i] != 0x0A,
    ensures
        line_run(uart_only, line, typing(line, keys) + h) == line_run(
            uart_only,
            edited(line, keys),
            h,
        ),
    decreases keys.len(),
{
    if keys.len() == 0 {
        assert(typing(line, keys) + h =~= h);
    } else {
        let c = keys[0];
        let e = edit(line.len(), c);
        let after = match e {
            Edit::Erase => line.drop_last(),
            Edit::Add(c) => line.push(c),
            _ => line,
        };
        let t = typing(after, keys.drop_first());
        lemma_typing(uart_only, after, keys.drop_first(), h);
        let all = typing(line, keys) + h;
        assert(all[0] == c);
        if e == Edit::Ignore {
            assert(all.drop_first() =~= t + h);
        } else {
            let later = cons(0, t + h);
            assert(all.drop_first() =~= later);
            assert(e == Edit::Erase || e == Edit::Add(c));
            assert(erase_run(uart_only, after, later) == line_run(uart_only, after, t + h));
            assert(echo_run(uart_only, after, c, later) == line_run(uart_only, after, t + h));
        }
    }
}

/// A completed line is executed, and the shell prompts for the next one.
pub proof fn lemma_line_is_executed(uart_only: bool, keys: Seq<u8>, end: u8, a: u8, b: u8, h: Seq<u8>)
    requires
        forall|i: int| 0 <= i < keys.len() ==> keys[i] != 0x0D && #[trigger] keys[i] != 0x0A,
        end == 0x0D || end == 0x0A,
    ensures
        ({
            let typed = typing(Seq::empty(), keys);
            let line = edited(Seq::empty(), keys);
            &&& line_run(uart_only, Seq::empty(), typed + seq![end, a]) == ShellRun::Wants(
                ShellOpView::Execute(command(line)),
            )
            &&& line_run(uart_only, Seq::empty(), typed + (seq![end, a, b] + h)) == prompt_run(
                uart_only,
                h,
            )
        }),
{
    let line = edited(Seq::empty(), keys);
    let none = Seq::<u8>::empty();
    lemma_typing(uart_only, none, keys, seq![end, a]);
    lemma_typing(uart_only, none, keys, seq![end, a, b] + h);
    assert(seq![end, a].drop_first() =~= seq![a]);
    assert(seq![a].drop_first() =~= none);
    assert(execute_run(uart_only, line, none) == ShellRun::Wants(
        ShellOpView::Execute(command(line)),
    ));
    assert(submit_run(uart_only, line, seq![a]) == execute_run(uart_only, line, none));
    assert(line_run(uart_only, line, seq![end, a]) == submit_run(uart_only, line, seq![a]));
    let t = seq![end, a, b] + h;
    let u = seq![a, b] + h;
    let v = seq![b] + h;
    assert(t.drop_first() =~= u);
    assert(u.drop_first() =~= v);
    assert(v.drop_first() =~= h);
    assert(execute_run(uart_only, line, v) == prompt_run(uart_only, h));
    assert(submit_run(uart_only, line, u) == execute_run(uart_only, line, v));
    assert(line_run(uart_only, line, t) == submit_run(uart_only, line, u));
}

/// A line never grows beyond its limit.
pub proof fn lemma_line_is_bounded(line: Seq<u8>, keys: Seq<u8>)
    requires
        line.len() <= LINE_MAX,
    ensures
        edited(line, keys).len() <= LINE_MAX,
    decreases keys.len(),
{
    if keys.len() > 0 {
        lemma_line_is_bounded(
            match edit(line.len(), keys[0]) {
                Edit::Erase => line.drop_last(),
                Edit::Add(c) => line.push(c),
                _ => line,
            },
            keys.drop_first(),
        );
    }
}

/// Backspace takes back the key before it.
pub proof fn lemma_backspace(line: Seq<u8>, c: u8)
    requires
        edit(line.len(), c) is Add,
    ensures
        edited(line, seq![c, 0x08]) == line,
{
    reveal_with_fuel(edited, 3);
    assert(seq![c, 0x08].drop_first() =~= seq![0x08u8]);
    assert(seq![0x08u8].drop_first() =~= Seq::empty());
    assert(line.push(c).drop_last() =~= line);
}

// ── The line, key by key ───────────────────────────────────────────────────

/// The line that keys make, the last of them last: 8 and 127 take a byte back, and a
/// line of 127 bytes takes no more.
pub open spec fn typed_line(keys: Seq<u8>) -> Seq<u8>
    decreases keys.len(),
{
    if keys.len() == 0 {
        Seq::empty()
    } else {
        let before = typed_line(keys.drop_last());
        let c = keys.last();
        if c == 8 || c == 127 {
            before.take(
                if before.len() > 0 {
                    before.len() - 1
                } else {
                    0
                },
            )
        } else if before.len() == 127 {
            before
        } else {
            before.push(c)
        }
    }
}

proof fn lemma_edited_last(line: Seq<u8>, keys: Seq<u8>, c: u8)
    ensures
        edited(line, keys.push(c)) == edited(edited(line, keys), seq![c]),
    decreases keys.len(),
{
    let all = keys.push(c);
    if keys.len() == 0 {
        assert(all =~= seq![c]);
    } else {
        let next = match edit(line.len(), keys[0]) {
            Edit::Erase => line.drop_last(),
            Edit::Add(c) => line.push(c),
            _ => line,
        };
        assert(all.drop_first() =~= keys.drop_first().push(c));
        lemma_edited_last(next, keys.drop_first(), c);
    }
}

/// The line that the shell has is the one that was typed.
pub proof fn lemma_line_is_typed(keys: Seq<u8>)
    requires
        forall|i: int| 0 <= i < keys.len() ==> keys[i] != 0x0D && #[trigger] keys[i] != 0x0A,
    ensures
        edited(Seq::empty(), keys) == typed_line(keys),
        typed_line(keys).len() <= 127,
    decreases keys.len(),
{
    if keys.len() > 0 {
        let c = keys.last();
        let some = keys.drop_last();
        let before = typed_line(some);
        lemma_line_is_typed(some);
        assert(some.push(c) =~= keys);
        lemma_edited_last(Seq::empty(), some, c);
        assert(keys[keys.len() - 1] == c);
        reveal_with_fuel(edited, 2);
        assert(seq![c].drop_first() =~= Seq::empty());
        if before.len() > 0 {
            assert(before.take(before.len() - 1) =~= before.drop_last());
        }
        assert(edited(before, seq![c]) =~= typed_line(keys));
    }
}

/// What a key shows: 13 and 10 end the line, 8 and 127 take the last character off the
/// display if there is one, and everything else is echoed, as long as there is room
/// for it. What is shown is followed by the wait for the next key.
pub proof fn lemma_key_is_shown(uart_only: bool, line: Seq<u8>, c: u8, r: u8)
    ensures
        ({
            let key = if uart_only {
                ShellOpView::UartKey
            } else {
                ShellOpView::Key
            };
            let shown = if c == 13 || c == 10 {
                ShellOpView::Print(utf8("\n"))
            } else if c == 8 || c == 127 {
                if line.len() > 0 {
                    ShellOpView::Print(utf8("\x08 \x08"))
                } else {
                    key
                }
            } else if line.len() < 127 {
                ShellOpView::Echo(c)
            } else {
                key
            };
            &&& line_run(uart_only, line, Seq::empty()) == ShellRun::Wants(key)
            &&& line_run(uart_only, line, seq![c]) == ShellRun::Wants(shown)
            &&& c != 13 && c != 10 && shown != key ==> line_run(uart_only, line, seq![c, r])
                == ShellRun::Wants(key)
        }),
{
    assert(seq![c].drop_first() =~= Seq::empty());
    assert(seq![c, r].drop_first() =~= seq![r]);
    assert(seq![r].drop_first() =~= Seq::empty());
    reveal_with_fuel(line_run, 3);
    reveal_with_fuel(echo_run, 2);
    reveal_with_fuel(erase_run, 2);
    reveal_with_fuel(submit_run, 2);
}

/// The shell asks for a line with its prompt; the one that has only the UART says so
/// first.
pub proof fn lemma_prompt(uart_only: bool, r: u8, h: Seq<u8>)
    ensures
        prompt_run(uart_only, Seq::empty()) == ShellRun::Wants(
            ShellOpView::Print(utf8("ai-os> ")),
        ),
        prompt_run(uart_only, cons(r, h)) == line_run(uart_only, Seq::empty(), h),
        uart_shell_run(Seq::empty()) == ShellRun::Wants(
            ShellOpView::Print(
                utf8("[kernel] UART-only mode. Connect serial cable (115200 8N1).\n") + utf8("\n"),
            ),
        ),
        uart_shell_run(cons(r, h)) == prompt_run(true, h),
{
}

// ── White space ────────────────────────────────────────────────────────────

/// The characters with the property White_Space, by their codes.
pub open spec fn white_codes() -> Seq<u32> {
    seq![
        9, 10, 11, 12, 13, 32, 133, 160, 5760,
        8192, 8193, 8194, 8195, 8196, 8197, 8198, 8199, 8200, 8201, 8202,
        8232, 8233, 8239, 8287, 12288,
    ]
}

pub open spec fn is_white(c: char) -> bool {
    white_codes().contains(c as u32)
}

proof fn lemma_white(c: char)
    ensures
        is_white_space(c) == is_white(c),
{
    let n = c as u32;
    let w = white_codes();
    assert(w[0] == 9 && w[1] == 10 && w[2] == 11 && w[3] == 12 && w[4] == 13 && w[5] == 32 && w[6]
        == 133 && w[7] == 160 && w[8] == 5760 && w[9] == 8192 && w[10] == 8193 && w[11] == 8194
        && w[12] == 8195 && w[13] == 8196 && w[14] == 8197 && w[15] == 8198 && w[16] == 8199
        && w[17] == 8200 && w[18] == 8201 && w[19] == 8202 && w[20] == 8232 && w[21] == 8233
        && w[22] == 8239 && w[23] == 8287 && w[24] == 12288);
    if is_white_space(c) {
        assert(w.contains(n));
    }
}

/// `r` is `s` without the white space at its ends, and with all of the rest.
pub open spec fn is_trimmed(s: Seq<char>, r: Seq<char>) -> bool {
    exists|i: int, j: int|
        {
            &&& 0 <= i <= j <= s.len()
            &&& r == #[trigger] s.subrange(i, j)
            &&& forall|k: int| 0 <= k < i || j <= k < s.len() ==> is_white(#[trigger] s[k])
            &&& i < j ==> !is_white(s[i]) && !is_white(s[j - 1])
        }
}

proof fn lemma_trimmed_start(s: Seq<char>) -> (i: int)
    ensures
        0 <= i <= s.len(),
        trimmed_start(s) == s.skip(i),
        forall|k: int| 0 <= k < i ==> is_white(#[trigger] s[k]),
        i < s.len() ==> !is_white(s[i]),
    decreases s.len(),
{
    if s.len() > 0 {
        lemma_white(s[0]);
    }
    if s.len() > 0 && is_white_space(s[0]) {
        let rest = s.drop_first();
        let i = lemma_trimmed_start(rest);
        assert(rest.skip(i) =~= s.skip(i + 1));
        assert forall|k: int| 0 <= k < i + 1 implies is_white(#[trigger] s[k]) by {
            if k > 0 {
                assert(rest[k - 1] == s[k]);
            }
        }
        i + 1
    } else {
        assert(s.skip(0) =~= s);
        0
    }
}

proof fn lemma_trimmed_end(s: Seq<char>) -> (j: int)
    ensures
        0 <= j <= s.len(),
        trimmed_end(s) == s.take(j),
        forall|k: int| j <= k < s.len() ==> is_white(#[trigger] s[k]),
        0 < j ==> !is_white(s[j - 1]),
    decreases s.len(),
{
    if s.len() > 0 {
        lemma_white(s.last());
    }
    if s.len() > 0 && is_white_space(s.last()) {
        let rest = s.drop_last();
        let j = lemma_trimmed_end(rest);
        assert(rest.take(j) =~= s.take(j));
        assert forall|k: int| j <= k < s.len() implies is_white(#[trigger] s[k]) by {
            if k < rest.len() {
                assert(rest[k] == s[k]);
            }
        }
        j
    } else {
        assert(s.take(s.len() as int) =~= s);
        s.len() as int
    }
}

/// Trimming takes exactly the white space at both ends away.
pub proof fn lemma_trimmed(s: Seq<char>)
    ensures
        is_trimmed(s, trimmed(s)),
{
    let i = lemma_trimmed_start(s);
    let t = s.skip(i);
    let n = lemma_trimmed_end(t);
    let j = i + n;
    assert(t.take(n) =~= s.subrange(i, j));
    assert forall|k: int| 0 <= k < i || j <= k < s.len() implies is_white(#[trigger] s[k]) by {
        if j <= k {
            assert(t[k - i] == s[k]);
        }
    }
    if n > 0 {
        assert(t[n - 1] == s[j - 1]);
    }
}

/// What is executed is what was typed, without the white space at its ends; a line that
/// is no valid UTF-8 is taken for an empty one.
pub proof fn lemma_typed_command(line: Seq<u8>, typed: Seq<char>)
    ensures
        line == vstd::utf8::encode_utf8(typed) ==> is_trimmed(typed, command(line)),
        !vstd::utf8::valid_utf8(line) ==> command(line).len() == 0,
{
    if line == vstd::utf8::encode_utf8(typed) {
        vstd::utf8::encode_utf8_decode_utf8(typed);
        vstd::utf8::encode_utf8_valid_utf8(typed);
        lemma_trimmed(typed);
    }
}

} // verus!
