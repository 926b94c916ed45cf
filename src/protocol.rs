//! The wire codec: status lines, multi-line replies with dot-stuffing, and
//! the command grammar.
use crate::text::{
    all_digits, char_vec, decimal, digit_char, digit_value, digits_value, flush, is_digit,
    is_space, join_words, lines_from, parse_id, parse_message_id, push_decimal, split_from,
    split_words, strip_cr, text_lines, views, words,
};
use vstd::prelude::*;

verus! {

/// The status line of a reply: `+OK <text>` or `-ERR <text>`.
#[derive(Debug)]
pub enum StatusIndicator {
    Positive(String),
    Negative(String),
}

pub open spec fn crlf() -> Seq<char> {
    seq!['\r', '\n']
}

/// What a status line looks like on the wire.
pub open spec fn status_wire(ok: bool, text: Seq<char>) -> Seq<char> {
    if ok {
        seq!['+', 'O', 'K', ' '] + text + crlf()
    } else {
        seq!['-', 'E', 'R', 'R', ' '] + text + crlf()
    }
}

impl StatusIndicator {
    pub open spec fn is_ok(&self) -> bool {
        self is Positive
    }

    pub open spec fn text(&self) -> Seq<char> {
        match self {
            StatusIndicator::Positive(t) => t@,
            StatusIndicator::Negative(t) => t@,
        }
    }

    /// The status line with its CRLF terminator.
    pub fn render(&self) -> (r: String)
        ensures
            r@ == status_wire(self.is_ok(), self.text()),
    {
        let mut out = String::new();
        match self {
            StatusIndicator::Positive(t) => {
                out.append("+OK ");
                out.append(t.as_str());
            },
            StatusIndicator::Negative(t) => {
                out.append("-ERR ");
                out.append(t.as_str());
            },
        }
        out.append("\r\n");
        proof {
            reveal_strlit("+OK ");
            reveal_strlit("-ERR ");
            reveal_strlit("\r\n");
        }
        out
    }
}

/// `c` is the letter `k`, in either case (`k` being an upper-case keyword
/// letter).
pub open spec fn same_letter(c: char, k: char) -> bool {
    (c as u32) == (k as u32) || (c as u32) == (k as u32) + 32
}

/// Command verbs are compared without regard to case.
pub open spec fn is_keyword(w: Seq<char>, kw: Seq<char>) -> bool {
    w.len() == kw.len() && forall|i: int| 0 <= i < w.len() ==> same_letter(#[trigger] w[i], kw[i])
}

pub open spec fn kw_user() -> Seq<char> {
    seq!['U', 'S', 'E', 'R']
}

pub open spec fn kw_pass() -> Seq<char> {
    seq!['P', 'A', 'S', 'S']
}

pub open spec fn kw_apop() -> Seq<char> {
    seq!['A', 'P', 'O', 'P']
}

pub open spec fn kw_noop() -> Seq<char> {
    seq!['N', 'O', 'O', 'P']
}

pub open spec fn kw_list() -> Seq<char> {
    seq!['L', 'I', 'S', 'T']
}

pub open spec fn kw_retr() -> Seq<char> {
    seq!['R', 'E', 'T', 'R']
}

pub open spec fn kw_dele() -> Seq<char> {
    seq!['D', 'E', 'L', 'E']
}

pub open spec fn kw_rset() -> Seq<char> {
    seq!['R', 'S', 'E', 'T']
}

pub open spec fn kw_quit() -> Seq<char> {
    seq!['Q', 'U', 'I', 'T']
}

fn matches_keyword(w: &Vec<char>, kw: &Vec<char>) -> (r: bool)
    ensures
        r == is_keyword(w@, kw@),
{
    if w.len() != kw.len() {
        return false;
    }
    let mut i: usize = 0;
    while i < w.len()
        invariant
            w.len() == kw.len(),
            i <= w.len(),
            forall|j: int| 0 <= j < i ==> same_letter(#[trigger] w@[j], kw@[j]),
        decreases w.len() - i,
    {
        let c = w[i] as u32 as u64;
        let k = kw[i] as u32 as u64;
        if !(c == k || c == k + 32) {
            return false;
        }
        i = i + 1;
    }
    true
}

/// A command as the client sends it.
#[derive(Debug)]
pub enum Command {
    Apop,
    Noop,
    Pass(String),
    Quit,
    User(String),
    List(Option<u64>),
    Retr(u64),
    Dele(u64),
    Rset,
}

/// A command, with its text arguments as character sequences.
pub enum CommandView {
    Apop,
    Noop,
    Pass(Seq<char>),
    Quit,
    User(Seq<char>),
    List(Option<u64>),
    Retr(u64),
    Dele(u64),
    Rset,
}

impl View for Command {
    type V = CommandView;

    open spec fn view(&self) -> CommandView {
        match self {
            Command::Apop => CommandView::Apop,
            Command::Noop => CommandView::Noop,
            Command::Pass(p) => CommandView::Pass(p@),
            Command::Quit => CommandView::Quit,
            Command::User(u) => CommandView::User(u@),
            Command::List(n) => CommandView::List(*n),
            Command::Retr(n) => CommandView::Retr(*n),
            Command::Dele(n) => CommandView::Dele(*n),
            Command::Rset => CommandView::Rset,
        }
    }
}

pub open spec fn unknown_command_text() -> Seq<char> {
    "Unknown command"@
}

pub open spec fn id_error_text(reason: Seq<char>) -> Seq<char> {
    "error parsing ID: "@ + reason
}

/// A message-number argument, or the error that the client is told.
pub open spec fn id_argument(t: Seq<char>) -> Result<u64, Seq<char>> {
    match parse_id(t) {
        Ok(n) => Ok(n),
        Err(m) => Err(id_error_text(m)),
    }
}

/// What a line read from the client means: a command, or the text of the
/// `-ERR` reply that it gets instead.
pub open spec fn parse_command(line: Seq<char>) -> Result<CommandView, Seq<char>> {
    let ws = split_words(line);
    if ws.len() == 0 {
        Err(unknown_command_text())
    } else {
        let v = ws[0];
        if is_keyword(v, kw_user()) {
            if ws.len() > 1 {
                Ok(CommandView::User(ws[1]))
            } else {
                Err("USER requires username"@)
            }
        } else if is_keyword(v, kw_pass()) {
            if ws.len() > 1 {
                Ok(CommandView::Pass(join_words(ws.skip(1))))
            } else {
                Err("PASS requires password"@)
            }
        } else if is_keyword(v, kw_apop()) {
            Ok(CommandView::Apop)
        } else if is_keyword(v, kw_noop()) {
            Ok(CommandView::Noop)
        } else if is_keyword(v, kw_list()) {
            if ws.len() > 1 {
                match id_argument(ws[1]) {
                    Ok(n) => Ok(CommandView::List(Some(n))),
                    Err(m) => Err(m),
                }
            } else {
                Ok(CommandView::List(None))
            }
        } else if is_keyword(v, kw_retr()) {
            if ws.len() > 1 {
                match id_argument(ws[1]) {
                    Ok(n) => Ok(CommandView::Retr(n)),
                    Err(m) => Err(m),
                }
            } else {
                Err("RETR requires message number"@)
            }
        } else if is_keyword(v, kw_dele()) {
            if ws.len() > 1 {
                match id_argument(ws[1]) {
                    Ok(n) => Ok(CommandView::Dele(n)),
                    Err(m) => Err(m),
                }
            } else {
                Err("DELE requires message number"@)
            }
        } else if is_keyword(v, kw_rset()) {
            Ok(CommandView::Rset)
        } else if is_keyword(v, kw_quit()) {
            Ok(CommandView::Quit)
        } else {
            Err(unknown_command_text())
        }
    }
}

/// Words `1..` of `ws`, joined with single spaces.
fn join_tail(ws: &Vec<String>) -> (r: String)
    requires
        ws.len() >= 2,
    ensures
        r@ == join_words(views(ws@).skip(1)),
{
    let ghost vs = views(ws@);
    let mut out = ws[1].clone();
    let mut i: usize = 2;
    proof {
        assert(vs.subrange(1, 2).drop_last() =~= Seq::<Seq<char>>::empty());
        assert(join_words(vs.subrange(1, 2)) == vs[1]);
    }
    while i < ws.len()
        invariant
            vs == views(ws@),
            2 <= i <= ws.len(),
            out@ == join_words(vs.subrange(1, i as int)),
        decreases ws.len() - i,
    {
        proof {
            assert(vs.subrange(1, i + 1).drop_last() =~= vs.subrange(1, i as int));
            reveal_strlit(" ");
        }
        out.append(" ");
        out.append(ws[i].as_str());
        i = i + 1;
    }
    proof {
        assert(vs.subrange(1, ws.len() as int) =~= vs.skip(1));
    }
    out
}

fn id_result(t: &String) -> (r: Result<u64, String>)
    ensures
        match id_argument(t@) {
            Ok(n) => r == Ok::<u64, String>(n),
            Err(m) => r is Err && r->Err_0@ == m,
        },
{
    match parse_message_id(t.as_str()) {
        Ok(n) => Ok(n),
        Err(reason) => {
            let mut m = "error parsing ID: ".to_owned();
            m.append(reason.as_str());
            Err(m)
        },
    }
}

fn rejected(text: &str) -> (r: Result<Command, StatusIndicator>)
    ensures
        r is Err,
        r->Err_0 is Negative,
        r->Err_0.text() == text@,
{
    Err(StatusIndicator::Negative(text.to_owned()))
}

impl Command {
    /// Reads one line from the client.
    pub fn parse(input: &str) -> (r: Result<Command, StatusIndicator>)
        ensures
            match parse_command(input@) {
                Ok(c) => r is Ok && r->Ok_0@ == c,
                Err(m) => r is Err && r->Err_0 is Negative && r->Err_0.text() == m,
            },
    {
        let ws = words(input);
        if ws.len() == 0 {
            return rejected("Unknown command");
        }
        let verb = char_vec(ws[0].as_str());
        let has_arg = ws.len() > 1;
        if matches_keyword(&verb, &vec!['U', 'S', 'E', 'R']) {
            if has_arg {
                Ok(Command::User(ws[1].clone()))
            } else {
                rejected("USER requires username")
            }
        } else if matches_keyword(&verb, &vec!['P', 'A', 'S', 'S']) {
            if has_arg {
                Ok(Command::Pass(join_tail(&ws)))
            } else {
                rejected("PASS requires password")
            }
        } else if matches_keyword(&verb, &vec!['A', 'P', 'O', 'P']) {
            Ok(Command::Apop)
        } else if matches_keyword(&verb, &vec!['N', 'O', 'O', 'P']) {
            Ok(Command::Noop)
        } else if matches_keyword(&verb, &vec!['L', 'I', 'S', 'T']) {
            if has_arg {
                match id_result(&ws[1]) {
                    Ok(n) => Ok(Command::List(Some(n))),
                    Err(m) => Err(StatusIndicator::Negative(m)),
                }
            } else {
                Ok(Command::List(None))
            }
        } else if matches_keyword(&verb, &vec!['R', 'E', 'T', 'R']) {
            if has_arg {
                match id_result(&ws[1]) {
                    Ok(n) => Ok(Command::Retr(n)),
                    Err(m) => Err(StatusIndicator::Negative(m)),
                }
            } else {
                rejected("RETR requires message number")
            }
        } else if matches_keyword(&verb, &vec!['D', 'E', 'L', 'E']) {
            if has_arg {
                match id_result(&ws[1]) {
                    Ok(n) => Ok(Command::Dele(n)),
                    Err(m) => Err(StatusIndicator::Negative(m)),
                }
            } else {
                rejected("DELE requires message number")
            }
        } else if matches_keyword(&verb, &vec!['R', 'S', 'E', 'T']) {
            Ok(Command::Rset)
        } else if matches_keyword(&verb, &vec!['Q', 'U', 'I', 'T']) {
            Ok(Command::Quit)
        } else {
            rejected("Unknown command")
        }
    }
}

/// The line a client sends for a command, CRLF included.
pub open spec fn command_line(c: CommandView) -> Seq<char> {
    match c {
        CommandView::User(u) => kw_user() + seq![' '] + u + crlf(),
        CommandView::Pass(p) => kw_pass() + seq![' '] + p + crlf(),
        CommandView::Apop => kw_apop() + crlf(),
        CommandView::Noop => kw_noop() + crlf(),
        CommandView::List(None) => kw_list() + crlf(),
        CommandView::List(Some(n)) => kw_list() + seq![' '] + decimal(n as nat) + crlf(),
        CommandView::Retr(n) => kw_retr() + seq![' '] + decimal(n as nat) + crlf(),
        CommandView::Dele(n) => kw_dele() + seq![' '] + decimal(n as nat) + crlf(),
        CommandView::Rset => kw_rset() + crlf(),
        CommandView::Quit => kw_quit() + crlf(),
    }
}

/// Non-empty text with no whitespace at either end, whose words are
/// separated by single spaces.
pub open spec fn single_spaced(t: Seq<char>) -> bool {
    &&& t.len() > 0
    &&& !is_space(t[0])
    &&& forall|i: int|
        0 <= i < t.len() && is_space(#[trigger] t[i]) ==> t[i] == ' ' && i + 1 < t.len()
            && !is_space(t[i + 1])
}

/// A command that survives being written on a line: a user name is one
/// word, a password is words separated by single spaces.
pub open spec fn well_formed(c: CommandView) -> bool {
    match c {
        CommandView::User(u) => u.len() > 0 && forall|i: int| 0 <= i < u.len() ==> !is_space(#[trigger] u[i]),
        CommandView::Pass(p) => single_spaced(p),
        _ => true,
    }
}

fn append_argument(out: &mut String, verb: &str, arg: &str)
    ensures
        final(out)@ == old(out)@ + verb@ + seq![' '] + arg@,
{
    out.append(verb);
    out.append(" ");
    out.append(arg);
    proof {
        reveal_strlit(" ");
    }
}

fn append_number(out: &mut String, verb: &str, n: u64)
    ensures
        final(out)@ == old(out)@ + verb@ + seq![' '] + decimal(n as nat),
{
    out.append(verb);
    out.append(" ");
    push_decimal(out, n as u128);
    proof {
        reveal_strlit(" ");
    }
}

impl Command {
    /// The line that sends this command, CRLF included.
    pub fn to_line(&self) -> (r: String)
        ensures
            r@ == command_line(self@),
    {
        let mut out = String::new();
        proof {
            reveal_strlit("USER");
            reveal_strlit("PASS");
            reveal_strlit("APOP");
            reveal_strlit("NOOP");
            reveal_strlit("LIST");
            reveal_strlit("RETR");
            reveal_strlit("DELE");
            reveal_strlit("RSET");
            reveal_strlit("QUIT");
            reveal_strlit("\r\n");
        }
        match self {
            Command::User(u) => append_argument(&mut out, "USER", u.as_str()),
            Command::Pass(p) => append_argument(&mut out, "PASS", p.as_str()),
            Command::Apop => out.append("APOP"),
            Command::Noop => out.append("NOOP"),
            Command::List(None) => out.append("LIST"),
            Command::List(Some(n)) => append_number(&mut out, "LIST", *n),
            Command::Retr(n) => append_number(&mut out, "RETR", *n),
            Command::Dele(n) => append_number(&mut out, "DELE", *n),
            Command::Rset => out.append("RSET"),
            Command::Quit => out.append("QUIT"),
        }
        out.append("\r\n");
        out
    }
}

proof fn lemma_split_trailing_space(s: Seq<char>, cur: Seq<char>, c: char)
    requires
        is_space(c),
    ensures
        split_from(s.push(c), cur) == split_from(s, cur),
    decreases s.len(),
{
    if s.len() == 0 {
        let e = Seq::<char>::empty();
        assert(s.push(c).drop_first() =~= e);
        assert(s.push(c)[0] == c);
        assert(flush(e) =~= Seq::<Seq<char>>::empty());
        assert(split_from(e, e) =~= Seq::<Seq<char>>::empty());
        assert(flush(cur) + Seq::<Seq<char>>::empty() =~= flush(cur));
        assert(s =~= e);
    } else {
        assert(s.push(c).drop_first() =~= s.drop_first().push(c));
        if is_space(s[0]) {
            lemma_split_trailing_space(s.drop_first(), seq![], c);
        } else {
            lemma_split_trailing_space(s.drop_first(), cur.push(s[0]), c);
        }
    }
}

proof fn lemma_split_crlf(s: Seq<char>, cur: Seq<char>)
    ensures
        split_from(s + crlf(), cur) == split_from(s, cur),
{
    assert(s + crlf() =~= s.push('\r').push('\n'));
    lemma_split_trailing_space(s.push('\r'), cur, '\n');
    lemma_split_trailing_space(s, cur, '\r');
}

proof fn lemma_split_word(w: Seq<char>, rest: Seq<char>, cur: Seq<char>)
    requires
        forall|i: int| 0 <= i < w.len() ==> !is_space(#[trigger] w[i]),
    ensures
        split_from(w + rest, cur) == split_from(rest, cur + w),
    decreases w.len(),
{
    if w.len() == 0 {
        assert(w + rest =~= rest);
        assert(cur + w =~= cur);
    } else {
        assert((w + rest).drop_first() =~= w.drop_first() + rest);
        assert(cur.push(w[0]) + w.drop_first() =~= cur + w);
        assert((w + rest)[0] == w[0]);
        lemma_split_word(w.drop_first(), rest, cur.push(w[0]));
    }
}

/// The words of `verb + " " + arg + CRLF`: the verb, then the words of `arg`.
proof fn lemma_split_command(verb: Seq<char>, arg: Seq<char>)
    requires
        verb.len() > 0,
        forall|i: int| 0 <= i < verb.len() ==> !is_space(#[trigger] verb[i]),
    ensures
        split_words(verb + seq![' '] + arg + crlf()) == seq![verb] + split_words(arg),
{
    let rest = seq![' '] + (arg + crlf());
    assert(verb + seq![' '] + arg + crlf() =~= verb + rest);
    lemma_split_word(verb, rest, seq![]);
    assert(Seq::<char>::empty() + verb =~= verb);
    assert(rest.drop_first() =~= arg + crlf());
    lemma_split_crlf(arg, seq![]);
}

/// The words of `verb + CRLF`: the verb alone.
proof fn lemma_split_bare(verb: Seq<char>)
    requires
        verb.len() > 0,
        forall|i: int| 0 <= i < verb.len() ==> !is_space(#[trigger] verb[i]),
    ensures
        split_words(verb + crlf()) == seq![verb],
{
    lemma_split_crlf(verb, seq![]);
    lemma_split_single(verb);
}

proof fn lemma_split_single(w: Seq<char>)
    requires
        w.len() > 0,
        forall|i: int| 0 <= i < w.len() ==> !is_space(#[trigger] w[i]),
    ensures
        split_words(w) == seq![w],
{
    lemma_split_word(w, seq![], seq![]);
    assert(w + Seq::<char>::empty() =~= w);
    assert(Seq::<char>::empty() + w =~= w);
}

proof fn lemma_digit_char(d: nat)
    requires
        d < 10,
    ensures
        is_digit(digit_char(d)),
        digit_value(digit_char(d)) == d,
{
}

proof fn lemma_decimal_digits(n: nat)
    ensures
        decimal(n).len() > 0,
        all_digits(decimal(n)),
        digits_value(decimal(n)) == n,
    decreases n,
{
    let r: nat = n % 10;
    lemma_digit_char(r);
    if n < 10 {
        assert(decimal(n).drop_last() =~= Seq::<char>::empty());
        assert(digits_value(decimal(n).drop_last()) == 0);
    } else {
        let m: nat = n / 10;
        lemma_decimal_digits(m);
        let d = decimal(n);
        assert(d == decimal(m).push(digit_char(r)));
        assert(d.drop_last() =~= decimal(m));
        assert forall|i: int| 0 <= i < d.len() implies is_digit(#[trigger] d[i]) by {
            if i < d.len() - 1 {
                assert(d[i] == decimal(m)[i]);
            }
        }
        assert(n == m * 10 + r);
    }
}

proof fn lemma_parse_decimal(n: u64)
    ensures
        id_argument(decimal(n as nat)) == Ok::<u64, Seq<char>>(n),
        split_words(decimal(n as nat)) == seq![decimal(n as nat)],
        forall|i: int| 0 <= i < decimal(n as nat).len() ==> !is_space(#[trigger] decimal(n as nat)[i]),
{
    let d = decimal(n as nat);
    lemma_decimal_digits(n as nat);
    assert(d[0] != '+') by {
        assert(is_digit(d[0]));
    }
    assert forall|i: int| 0 <= i < d.len() implies !is_space(#[trigger] d[i]) by {
        assert(is_digit(d[i]));
    }
    lemma_split_single(d);
}

proof fn lemma_keywords_distinct()
    ensures
        is_keyword(kw_user(), kw_user()),
        is_keyword(kw_pass(), kw_pass()),
        is_keyword(kw_apop(), kw_apop()),
        is_keyword(kw_noop(), kw_noop()),
        is_keyword(kw_list(), kw_list()),
        is_keyword(kw_retr(), kw_retr()),
        is_keyword(kw_dele(), kw_dele()),
        is_keyword(kw_rset(), kw_rset()),
        is_keyword(kw_quit(), kw_quit()),
        !is_keyword(kw_pass(), kw_user()),
        !is_keyword(kw_apop(), kw_user()),
        !is_keyword(kw_apop(), kw_pass()),
        !is_keyword(kw_noop(), kw_user()),
        !is_keyword(kw_noop(), kw_pass()),
        !is_keyword(kw_noop(), kw_apop()),
        !is_keyword(kw_list(), kw_user()),
        !is_keyword(kw_list(), kw_pass()),
        !is_keyword(kw_list(), kw_apop()),
        !is_keyword(kw_list(), kw_noop()),
        !is_keyword(kw_retr(), kw_user()),
        !is_keyword(kw_retr(), kw_pass()),
        !is_keyword(kw_retr(), kw_apop()),
        !is_keyword(kw_retr(), kw_noop()),
        !is_keyword(kw_retr(), kw_list()),
        !is_keyword(kw_dele(), kw_user()),
        !is_keyword(kw_dele(), kw_pass()),
        !is_keyword(kw_dele(), kw_apop()),
        !is_keyword(kw_dele(), kw_noop()),
        !is_keyword(kw_dele(), kw_list()),
        !is_keyword(kw_dele(), kw_retr()),
        !is_keyword(kw_rset(), kw_user()),
        !is_keyword(kw_rset(), kw_pass()),
        !is_keyword(kw_rset(), kw_apop()),
        !is_keyword(kw_rset(), kw_noop()),
        !is_keyword(kw_rset(), kw_list()),
        !is_keyword(kw_rset(), kw_retr()),
        !is_keyword(kw_rset(), kw_dele()),
        !is_keyword(kw_quit(), kw_user()),
        !is_keyword(kw_quit(), kw_pass()),
        !is_keyword(kw_quit(), kw_apop()),
        !is_keyword(kw_quit(), kw_noop()),
        !is_keyword(kw_quit(), kw_list()),
        !is_keyword(kw_quit(), kw_retr()),
        !is_keyword(kw_quit(), kw_dele()),
        !is_keyword(kw_quit(), kw_rset()),
{
    assert(!same_letter(kw_pass()[0], kw_user()[0]));
    assert(!same_letter(kw_apop()[0], kw_user()[0]));
    assert(!same_letter(kw_apop()[0], kw_pass()[0]));
    assert(!same_letter(kw_noop()[0], kw_user()[0]));
    assert(!same_letter(kw_noop()[0], kw_pass()[0]));
    assert(!same_letter(kw_noop()[0], kw_apop()[0]));
    assert(!same_letter(kw_list()[0], kw_user()[0]));
    assert(!same_letter(kw_list()[0], kw_pass()[0]));
    assert(!same_letter(kw_list()[0], kw_apop()[0]));
    assert(!same_letter(kw_list()[0], kw_noop()[0]));
    assert(!same_letter(kw_retr()[0], kw_user()[0]));
    assert(!same_letter(kw_retr()[0], kw_pass()[0]));
    assert(!same_letter(kw_retr()[0], kw_apop()[0]));
    assert(!same_letter(kw_retr()[0], kw_noop()[0]));
    assert(!same_letter(kw_retr()[0], kw_list()[0]));
    assert(!same_letter(kw_dele()[0], kw_user()[0]));
    assert(!same_letter(kw_dele()[0], kw_pass()[0]));
    assert(!same_letter(kw_dele()[0], kw_apop()[0]));
    assert(!same_letter(kw_dele()[0], kw_noop()[0]));
    assert(!same_letter(kw_dele()[0], kw_list()[0]));
    assert(!same_letter(kw_dele()[0], kw_retr()[0]));
    assert(!same_letter(kw_rset()[0], kw_user()[0]));
    assert(!same_letter(kw_rset()[0], kw_pass()[0]));
    assert(!same_letter(kw_rset()[0], kw_apop()[0]));
    assert(!same_letter(kw_rset()[0], kw_noop()[0]));
    assert(!same_letter(kw_rset()[0], kw_list()[0]));
    assert(!same_letter(kw_rset()[1], kw_retr()[1]));
    assert(!same_letter(kw_rset()[0], kw_dele()[0]));
    assert(!same_letter(kw_quit()[0], kw_user()[0]));
    assert(!same_letter(kw_quit()[0], kw_pass()[0]));
    assert(!same_letter(kw_quit()[0], kw_apop()[0]));
    assert(!same_letter(kw_quit()[0], kw_noop()[0]));
    assert(!same_letter(kw_quit()[0], kw_list()[0]));
    assert(!same_letter(kw_quit()[0], kw_retr()[0]));
    assert(!same_letter(kw_quit()[0], kw_dele()[0]));
    assert(!same_letter(kw_quit()[0], kw_rset()[0]));
}

proof fn lemma_keyword_word(kw: Seq<char>)
    requires
        kw.len() == 4,
        forall|i: int| 0 <= i < 4 ==> 0x41 <= (#[trigger] kw[i] as u32) <= 0x5a,
    ensures
        kw.len() > 0,
        forall|i: int| 0 <= i < kw.len() ==> !is_space(#[trigger] kw[i]),
{
}

proof fn lemma_join_front(a: Seq<char>, ws: Seq<Seq<char>>)
    requires
        ws.len() > 0,
    ensures
        join_words(seq![a] + ws) == a + seq![' '] + join_words(ws),
    decreases ws.len(),
{
    let all = seq![a] + ws;
    assert(all.len() >= 2);
    if ws.len() == 1 {
        assert(all.drop_last() =~= seq![a]);
        assert(join_words(seq![a]) == a);
        assert(all.last() == ws[0]);
        assert(join_words(ws) == ws[0]);
        assert(join_words(all) == join_words(all.drop_last()) + seq![' '] + all.last());
    } else {
        lemma_join_front(a, ws.drop_last());
        assert(all.drop_last() =~= seq![a] + ws.drop_last());
        assert(all.last() == ws.last());
        assert(join_words(all) == join_words(all.drop_last()) + seq![' '] + all.last());
        assert(join_words(ws) == join_words(ws.drop_last()) + seq![' '] + ws.last());
        assert(a + seq![' '] + join_words(ws.drop_last()) + seq![' '] + ws.last() =~= a + seq![' ']
            + (join_words(ws.drop_last()) + seq![' '] + ws.last()));
    }
}

/// The words of single-spaced text, joined with single spaces, give the
/// text back (`cur` being the start of the current word).
proof fn lemma_single_spaced_words(s: Seq<char>, cur: Seq<char>)
    requires
        forall|i: int| 0 <= i < cur.len() ==> !is_space(#[trigger] cur[i]),
        single_spaced(cur + s),
    ensures
        split_from(s, cur).len() > 0,
        join_words(split_from(s, cur)) == cur + s,
    decreases s.len(),
{
    let t = cur + s;
    if s.len() == 0 {
        assert(t =~= cur);
        assert(split_from(s, cur) == seq![cur]);
    } else if is_space(s[0]) {
        let k = cur.len() as int;
        assert(t[k] == s[0]);
        assert(k > 0) by {
            if k == 0 {
                assert(!is_space(t[0]));
            }
        }
        assert(t[k] == ' ' && k + 1 < t.len() && !is_space(t[k + 1]));
        let rest = s.drop_first();
        assert forall|i: int|
            0 <= i < rest.len() && is_space(#[trigger] rest[i]) implies rest[i] == ' ' && i + 1
            < rest.len() && !is_space(rest[i + 1]) by {
            assert(rest[i] == t[k + 1 + i]);
            assert(is_space(t[k + 1 + i]));
            assert(t[k + 1 + i + 1] == rest[i + 1]);
        }
        assert(rest[0] == t[k + 1]);
        assert(Seq::<char>::empty() + rest =~= rest);
        lemma_single_spaced_words(rest, seq![]);
        assert(split_from(s, cur) == flush(cur) + split_from(rest, seq![]));
        assert(flush(cur) == seq![cur]);
        lemma_join_front(cur, split_from(rest, seq![]));
        assert(cur + seq![' '] + rest =~= t);
    } else {
        assert(cur.push(s[0]) + s.drop_first() =~= t);
        assert forall|i: int| 0 <= i < cur.push(s[0]).len() implies !is_space(
            #[trigger] cur.push(s[0])[i],
        ) by {
            if i < cur.len() {
                assert(cur.push(s[0])[i] == cur[i]);
            }
        }
        lemma_single_spaced_words(s.drop_first(), cur.push(s[0]));
    }
}

/// Writing a well-formed command on a line and reading the line back gives
/// the same command.
pub proof fn lemma_parse_format(c: CommandView)
    requires
        well_formed(c),
    ensures
        parse_command(command_line(c)) == Ok::<CommandView, Seq<char>>(c),
{
    lemma_keywords_distinct();
    lemma_keyword_word(kw_user());
    lemma_keyword_word(kw_pass());
    lemma_keyword_word(kw_apop());
    lemma_keyword_word(kw_noop());
    lemma_keyword_word(kw_list());
    lemma_keyword_word(kw_retr());
    lemma_keyword_word(kw_dele());
    lemma_keyword_word(kw_rset());
    lemma_keyword_word(kw_quit());
    match c {
        CommandView::User(u) => {
            lemma_split_command(kw_user(), u);
            lemma_split_single(u);
        },
        CommandView::Pass(p) => {
            lemma_single_spaced_words(p, seq![]);
            assert(Seq::<char>::empty() + p =~= p);
            lemma_split_command(kw_pass(), p);
            assert((seq![kw_pass()] + split_words(p)).skip(1) =~= split_words(p));
        },
        CommandView::Apop => lemma_split_bare(kw_apop()),
        CommandView::Noop => lemma_split_bare(kw_noop()),
        CommandView::List(None) => lemma_split_bare(kw_list()),
        CommandView::List(Some(n)) => {
            lemma_split_command(kw_list(), decimal(n as nat));
            lemma_parse_decimal(n);
        },
        CommandView::Retr(n) => {
            lemma_split_command(kw_retr(), decimal(n as nat));
            lemma_parse_decimal(n);
        },
        CommandView::Dele(n) => {
            lemma_split_command(kw_dele(), decimal(n as nat));
            lemma_parse_decimal(n);
        },
        CommandView::Rset => lemma_split_bare(kw_rset()),
        CommandView::Quit => lemma_split_bare(kw_quit()),
    }
}

/// A reply: the status line, and for a multi-line reply the lines of its
/// body (without the terminating `.` line, and not yet dot-stuffed).
pub struct Response {
    pub status: StatusIndicator,
    pub body: Option<Vec<String>>,
}

/// A body line as sent: one that starts with `.` gets one more in front.
pub open spec fn stuffed(line: Seq<char>) -> Seq<char> {
    if line.len() > 0 && line[0] == '.' {
        seq!['.'] + line
    } else {
        line
    }
}

/// The lines, stuffed, each followed by CRLF.
pub open spec fn lines_wire(lines: Seq<Seq<char>>) -> Seq<char>
    decreases lines.len(),
{
    if lines.len() == 0 {
        seq![]
    } else {
        lines_wire(lines.drop_last()) + stuffed(lines.last()) + crlf()
    }
}

/// A multi-line body on the wire: the stuffed lines, then a line holding a
/// lone `.`.
pub open spec fn body_wire(lines: Seq<Seq<char>>) -> Seq<char> {
    lines_wire(lines) + seq!['.'] + crlf()
}

impl Response {
    pub open spec fn body_lines(&self) -> Option<Seq<Seq<char>>> {
        match self.body {
            Some(ls) => Some(views(ls@)),
            None => None,
        }
    }

    /// What the reply looks like on the wire.
    pub open spec fn wire(&self) -> Seq<char> {
        status_wire(self.status.is_ok(), self.status.text()) + match self.body_lines() {
            Some(ls) => body_wire(ls),
            None => Seq::<char>::empty(),
        }
    }

    /// The reply as it is sent.
    pub fn to_wire(&self) -> (r: String)
        ensures
            r@ == self.wire(),
    {
        let mut out = self.status.render();
        match &self.body {
            None => {
                assert(out@ + Seq::<char>::empty() =~= out@);
            },
            Some(lines) => {
                let ghost head = out@;
                let ghost ls = views(lines@);
                let mut i: usize = 0;
                proof {
                    reveal_strlit("\r\n");
                    reveal_strlit(".");
                    reveal_strlit(".\r\n");
                    assert(ls.take(0) =~= Seq::<Seq<char>>::empty());
                    assert(head + lines_wire(ls.take(0)) =~= head);
                }
                while i < lines.len()
                    invariant
                        ls == views(lines@),
                        i <= lines.len(),
                        out@ == head + lines_wire(ls.take(i as int)),
                    decreases lines.len() - i,
                {
                    let line = lines[i].as_str();
                    proof {
                        assert(ls.take(i + 1).drop_last() =~= ls.take(i as int));
                        assert(ls.take(i + 1).last() == line@);
                        reveal_strlit("\r\n");
                        reveal_strlit(".");
                    }
                    if starts_with_dot(line) {
                        out.append(".");
                    }
                    out.append(line);
                    out.append("\r\n");
                    i = i + 1;
                }
                out.append(".\r\n");
                proof {
                    assert(ls.take(lines.len() as int) =~= ls);
                }
            },
        }
        out
    }
}

fn starts_with_dot(line: &str) -> (r: bool)
    ensures
        r == (line@.len() > 0 && line@[0] == '.'),
{
    let n = line.unicode_len();
    n > 0 && line.get_char(0) == '.'
}

/// A sent line, as the client reads it back: one leading `.` removed.
pub open spec fn unstuffed(line: Seq<char>) -> Seq<char> {
    if line.len() > 0 && line[0] == '.' {
        line.drop_first()
    } else {
        line
    }
}

/// The lines sent for a body, in order, CRLF not counted.
pub open spec fn sent_lines(lines: Seq<Seq<char>>) -> Seq<Seq<char>> {
    lines.map_values(|l: Seq<char>| stuffed(l)).push(seq!['.'])
}

/// Lines each followed by CRLF.
pub open spec fn crlf_joined(lines: Seq<Seq<char>>) -> Seq<char>
    decreases lines.len(),
{
    if lines.len() == 0 {
        seq![]
    } else {
        crlf_joined(lines.drop_last()) + lines.last() + crlf()
    }
}

/// What a client makes of the lines that follow a status line: the lines up
/// to the first lone `.`, each un-stuffed; `None` if no such line comes.
pub open spec fn client_body(received: Seq<Seq<char>>) -> Option<Seq<Seq<char>>>
    decreases received.len(),
{
    if received.len() == 0 {
        None
    } else if received[0] == seq!['.'] {
        Some(seq![])
    } else {
        match client_body(received.drop_first()) {
            Some(rest) => Some(seq![unstuffed(received[0])] + rest),
            None => None,
        }
    }
}

proof fn lemma_lines_wire_joined(lines: Seq<Seq<char>>)
    ensures
        lines_wire(lines) == crlf_joined(lines.map_values(|l: Seq<char>| stuffed(l))),
    decreases lines.len(),
{
    if lines.len() > 0 {
        lemma_lines_wire_joined(lines.drop_last());
        assert(lines.map_values(|l: Seq<char>| stuffed(l)).drop_last() =~= lines.drop_last().map_values(
            |l: Seq<char>| stuffed(l),
        ));
    }
}

proof fn lemma_client_reads_back(lines: Seq<Seq<char>>)
    ensures
        client_body(sent_lines(lines)) == Some(lines),
    decreases lines.len(),
{
    let sent = sent_lines(lines);
    if lines.len() == 0 {
        assert(sent =~= seq![seq!['.']]);
    } else {
        let l = lines[0];
        assert(sent[0] == stuffed(l));
        assert(stuffed(l) != seq!['.']) by {
            if l.len() > 0 && l[0] == '.' {
                assert(stuffed(l).len() >= 2);
            } else if l.len() > 0 {
                assert(stuffed(l)[0] != '.');
            } else {
                assert(stuffed(l).len() == 0);
            }
        }
        assert(unstuffed(stuffed(l)) =~= l);
        lemma_client_reads_back(lines.drop_first());
        assert(sent.drop_first() =~= sent_lines(lines.drop_first()));
        assert(seq![l] + lines.drop_first() =~= lines);
    }
}

pub open spec fn no_newline(line: Seq<char>) -> bool {
    forall|i: int| 0 <= i < line.len() ==> line[i] != '\n'
}

proof fn lemma_crlf_joined_front(ls: Seq<Seq<char>>)
    requires
        ls.len() > 0,
    ensures
        crlf_joined(ls) == ls[0] + crlf() + crlf_joined(ls.drop_first()),
    decreases ls.len(),
{
    if ls.len() == 1 {
        assert(ls.drop_last() =~= Seq::<Seq<char>>::empty());
        assert(ls.drop_first() =~= Seq::<Seq<char>>::empty());
        assert(crlf_joined(ls) =~= ls[0] + crlf() + crlf_joined(ls.drop_first()));
    } else {
        lemma_crlf_joined_front(ls.drop_last());
        assert(ls.drop_last().drop_first() =~= ls.drop_first().drop_last());
        assert(ls.drop_last()[0] == ls[0]);
        assert(ls.drop_first().last() == ls.last());
        assert(crlf_joined(ls) =~= ls[0] + crlf() + crlf_joined(ls.drop_first()));
    }
}

proof fn lemma_lines_word(w: Seq<char>, rest: Seq<char>, cur: Seq<char>)
    requires
        no_newline(w),
    ensures
        lines_from(w + rest, cur) == lines_from(rest, cur + w),
    decreases w.len(),
{
    if w.len() == 0 {
        assert(w + rest =~= rest);
        assert(cur + w =~= cur);
    } else {
        assert((w + rest).drop_first() =~= w.drop_first() + rest);
        assert(cur.push(w[0]) + w.drop_first() =~= cur + w);
        assert((w + rest)[0] == w[0]);
        lemma_lines_word(w.drop_first(), rest, cur.push(w[0]));
    }
}

proof fn lemma_lines_line(l: Seq<char>, rest: Seq<char>)
    requires
        no_newline(l),
    ensures
        lines_from(l + crlf() + rest, seq![]) == seq![l] + lines_from(rest, seq![]),
{
    let tail = crlf() + rest;
    assert(l + crlf() + rest =~= l + tail);
    lemma_lines_word(l, tail, seq![]);
    assert(Seq::<char>::empty() + l =~= l);
    assert(tail[0] == '\r');
    assert(tail.drop_first() =~= seq!['\n'] + rest);
    assert((seq!['\n'] + rest)[0] == '\n');
    assert((seq!['\n'] + rest).drop_first() =~= rest);
    assert(lines_from(tail, l) == lines_from(seq!['\n'] + rest, l.push('\r')));
    assert(strip_cr(l.push('\r')) =~= l);
}

proof fn lemma_text_lines_joined(ls: Seq<Seq<char>>)
    requires
        forall|i: int| 0 <= i < ls.len() ==> no_newline(#[trigger] ls[i]),
    ensures
        text_lines(crlf_joined(ls)) == ls,
    decreases ls.len(),
{
    if ls.len() == 0 {
        assert(flush(Seq::<char>::empty()) =~= Seq::<Seq<char>>::empty());
    } else {
        lemma_crlf_joined_front(ls);
        lemma_lines_line(ls[0], crlf_joined(ls.drop_first()));
        assert forall|i: int| 0 <= i < ls.drop_first().len() implies no_newline(
            #[trigger] ls.drop_first()[i],
        ) by {
            assert(ls.drop_first()[i] == ls[i + 1]);
        }
        lemma_text_lines_joined(ls.drop_first());
        assert(seq![ls[0]] + ls.drop_first() =~= ls);
    }
}

proof fn lemma_text_lines_no_newline(s: Seq<char>, cur: Seq<char>)
    requires
        no_newline(cur),
    ensures
        forall|i: int| 0 <= i < lines_from(s, cur).len() ==> no_newline(#[trigger] lines_from(s, cur)[i]),
    decreases s.len(),
{
    if s.len() > 0 {
        if s[0] == '\n' {
            lemma_text_lines_no_newline(s.drop_first(), seq![]);
            let rest = lines_from(s.drop_first(), seq![]);
            let all = lines_from(s, cur);
            assert forall|i: int| 0 <= i < all.len() implies no_newline(#[trigger] all[i]) by {
                if i > 0 {
                    assert(all[i] == rest[i - 1]);
                } else {
                    assert(all[0] == strip_cr(cur));
                    assert forall|k: int| 0 <= k < strip_cr(cur).len() implies strip_cr(cur)[k]
                        != '\n' by {
                        assert(strip_cr(cur)[k] == cur[k]);
                    }
                }
            }
        } else {
            assert(no_newline(cur.push(s[0]))) by {
                assert forall|k: int| 0 <= k < cur.push(s[0]).len() implies cur.push(s[0])[k]
                    != '\n' by {
                    if k < cur.len() {
                        assert(cur.push(s[0])[k] == cur[k]);
                    }
                }
            }
            lemma_text_lines_no_newline(s.drop_first(), cur.push(s[0]));
            assert(lines_from(s, cur) == lines_from(s.drop_first(), cur.push(s[0])));
        }
    } else {
        if cur.len() > 0 {
            assert(lines_from(s, cur) =~= seq![cur]);
        } else {
            assert(lines_from(s, cur) =~= Seq::<Seq<char>>::empty());
        }
    }
}

/// Dot-stuffing loses nothing: a body goes on the wire as its stuffed lines
/// and a lone `.` line, each followed by CRLF; a client that splits what it
/// receives into lines, reads up to the lone `.` and un-stuffs gets back
/// exactly the lines that were sent, whatever dots they start with.
pub proof fn lemma_dot_stuffing_round_trip(lines: Seq<Seq<char>>)
    requires
        forall|i: int| 0 <= i < lines.len() ==> no_newline(#[trigger] lines[i]),
    ensures
        body_wire(lines) == crlf_joined(sent_lines(lines)),
        text_lines(body_wire(lines)) == sent_lines(lines),
        client_body(text_lines(body_wire(lines))) == Some(lines),
{
    lemma_lines_wire_joined(lines);
    let sent = sent_lines(lines);
    assert(sent.drop_last() =~= lines.map_values(|l: Seq<char>| stuffed(l)));
    assert forall|i: int| 0 <= i < sent.len() implies no_newline(#[trigger] sent[i]) by {
        if i < lines.len() {
            assert(no_newline(lines[i]));
            assert(sent[i] == stuffed(lines[i]));
            if lines[i].len() > 0 && lines[i][0] == '.' {
                assert forall|k: int| 0 <= k < sent[i].len() implies sent[i][k] != '\n' by {
                    if k > 0 {
                        assert(sent[i][k] == lines[i][k - 1]);
                    }
                }
            }
        } else {
            assert(sent[i] == seq!['.']);
        }
    }
    lemma_text_lines_joined(sent);
    lemma_client_reads_back(lines);
}

/// A stored message goes to the client verbatim, line for line: what the
/// client reads back from the body of a RETR reply is the message's lines.
pub proof fn lemma_message_transmitted_verbatim(text: Seq<char>)
    ensures
        client_body(text_lines(body_wire(text_lines(text)))) == Some(text_lines(text)),
{
    lemma_text_lines_no_newline(text, seq![]);
    lemma_dot_stuffing_round_trip(text_lines(text));
}

} // verus!
