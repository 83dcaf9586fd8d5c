use vstd::prelude::*;

use crate::engine::UpdateMsg;

verus! {

// ---------------------------------------------------------------------------
// Splitting a command line into parts, respecting quotes and backslashes.
// ---------------------------------------------------------------------------
/// The character has the Unicode `White_Space` property.
pub open spec fn is_space(c: char) -> bool {
    ||| c as u32 == 0x20
    ||| (0x09 <= c as u32 && c as u32 <= 0x0D)
    ||| c as u32 == 0x85
    ||| c as u32 == 0xA0
    ||| c as u32 == 0x1680
    ||| (0x2000 <= c as u32 && c as u32 <= 0x200A)
    ||| c as u32 == 0x2028
    ||| c as u32 == 0x2029
    ||| c as u32 == 0x202F
    ||| c as u32 == 0x205F
    ||| c as u32 == 0x3000
}

/// Executable test for `is_space`.
pub fn is_space_char(c: char) -> (r: bool)
    ensures
        r == is_space(c),
{
    let u = c as u32;
    u == 0x20 || (0x09 <= u && u <= 0x0D) || u == 0x85 || u == 0xA0 || u == 0x1680 || (0x2000 <= u
        && u <= 0x200A) || u == 0x2028 || u == 0x2029 || u == 0x202F || u == 0x205F || u == 0x3000
}

/// Tokenizer state: the open quote character if any, whether the previous
/// character was a backslash, the part being built, and the finished parts.
#[verifier::ext_equal]
pub struct SplitState {
    pub quotes: Option<char>,
    pub prev_backslash: bool,
    pub part: Seq<char>,
    pub parts: Seq<Seq<char>>,
}

/// Close the current part, if it is non-empty.
pub open spec fn split_flush(st: SplitState) -> SplitState {
    if st.part.len() > 0 {
        SplitState { part: Seq::empty(), parts: st.parts.push(st.part), ..st }
    } else {
        st
    }
}

/// One tokenizer step: unquoted whitespace closes the part; a matching
/// unescaped quote closes the part and the quote; an unescaped quote opens
/// one; any other character except an opening backslash joins the part.
pub open spec fn split_step(st: SplitState, c: char) -> SplitState {
    let st1 = if st.quotes is None && is_space(c) {
        split_flush(st)
    } else if st.quotes == Some(c) && !st.prev_backslash {
        SplitState { quotes: None, ..split_flush(st) }
    } else if !st.prev_backslash && st.quotes is None && (c == '\'' || c == '"') {
        SplitState { quotes: Some(c), ..split_flush(st) }
    } else if c != '\\' || st.prev_backslash {
        SplitState { part: st.part.push(c), ..st }
    } else {
        st
    };
    SplitState { prev_backslash: c == '\\', ..st1 }
}

/// The tokenizer run over `s`, started at `st`.
pub open spec fn split_run(st: SplitState, s: Seq<char>) -> SplitState
    decreases s.len(),
{
    if s.len() == 0 {
        st
    } else {
        split_step(split_run(st, s.drop_last()), s.last())
    }
}

/// The tokenizer's starting state.
pub open spec fn split_init() -> SplitState {
    SplitState { quotes: None, prev_backslash: false, part: Seq::empty(), parts: Seq::empty() }
}

/// The parts that splitting `s` yields.
pub open spec fn spec_split(s: Seq<char>) -> Seq<Seq<char>> {
    split_flush(split_run(split_init(), s)).parts
}

/// The character sequences of a list of strings.
pub open spec fn strs(ss: Seq<String>) -> Seq<Seq<char>> {
    ss.map_values(|s: String| s@)
}

/// Relies on str::chars with Iterator::collect: the characters of the
/// string, in order.
#[verifier::external_body]
pub(crate) fn str_chars(s: &str) -> (v: Vec<char>)
    ensures
        v@ == s@,
{
    s.chars().collect()
}

/// Relies on Iterator::collect for String: the characters, joined back into
/// a string.
#[verifier::external_body]
pub(crate) fn chars_str(v: &Vec<char>) -> (s: String)
    ensures
        s@ == v@,
{
    v.iter().collect()
}

/// Splits the command line into parts, respecting quoted text.
pub fn split_command(cmd: &str) -> (parts: Vec<String>)
    ensures
        strs(parts@) == spec_split(cmd@),
{
    let chars = str_chars(cmd);
    let n = chars.len();
    let mut parts: Vec<String> = Vec::new();
    let mut part: Vec<char> = Vec::new();
    let mut quotes: Option<char> = None;
    let mut prev_was_backslash = false;
    let mut i: usize = 0;
    proof {
        assert(cmd@.take(0) =~= Seq::<char>::empty());
        let st0 = SplitState {
            quotes: None,
            prev_backslash: false,
            part: Seq::<char>::empty(),
            parts: strs(Seq::<String>::empty()),
        };
        assert(st0 =~= split_init());
    }
    while i < n
        invariant
            n == chars@.len(),
            chars@ == cmd@,
            i <= n,
            (SplitState {
                quotes,
                prev_backslash: prev_was_backslash,
                part: part@,
                parts: strs(parts@),
            }) == split_run(split_init(), cmd@.take(i as int)),
        decreases n - i,
    {
        let ghost pre = SplitState {
            quotes,
            prev_backslash: prev_was_backslash,
            part: part@,
            parts: strs(parts@),
        };
        let c = chars[i];
        let quote_match = match quotes {
            Some(q) => q == c,
            None => false,
        };
        if quotes.is_none() && is_space_char(c) {
            if part.len() > 0 {
                let finished = chars_str(&part);
                parts.push(finished);
                part = Vec::new();
            }
        } else if quote_match && !prev_was_backslash {
            quotes = None;
            if part.len() > 0 {
                let finished = chars_str(&part);
                parts.push(finished);
                part = Vec::new();
            }
        } else if !prev_was_backslash && quotes.is_none() && (c == '\'' || c == '"') {
            if part.len() > 0 {
                let finished = chars_str(&part);
                parts.push(finished);
                part = Vec::new();
            }
            quotes = Some(c);
        } else if c != '\\' || prev_was_backslash {
            part.push(c);
        }
        prev_was_backslash = c == '\\';
        i += 1;
        proof {
            assert(cmd@.take(i as int).drop_last() =~= cmd@.take(i - 1));
            assert(cmd@.take(i as int).last() == c);
            let post = SplitState {
                quotes,
                prev_backslash: prev_was_backslash,
                part: part@,
                parts: strs(parts@),
            };
            assert(post.parts =~= split_step(pre, c).parts);
            assert(post =~= split_step(pre, c)) by {
                assert(post.parts =~= split_step(pre, c).parts);
                assert(post.part =~= split_step(pre, c).part);
            }
        }
    }
    if part.len() > 0 {
        let finished = chars_str(&part);
        parts.push(finished);
    }
    proof {
        assert(cmd@.take(cmd@.len() as int) =~= cmd@);
        assert(strs(parts@) =~= spec_split(cmd@));
    }
    parts
}


// ---------------------------------------------------------------------------
// Parsing parts into a command call.
// ---------------------------------------------------------------------------
/// Parser state while walking the parts after the command word: named
/// parameters gathered so far, positional arguments, and a parameter name
/// waiting for its value.
#[verifier::ext_equal]
pub struct ParseState {
    pub params: Seq<(Seq<char>, Seq<char>)>,
    pub args: Seq<Seq<char>>,
    pub pending: Option<Seq<char>>,
}

/// One parser step: `--name` opens a named parameter, the next part closes
/// it, anything else is a positional argument.
pub open spec fn parse_step(st: ParseState, part: Seq<char>) -> ParseState {
    if part.len() >= 2 && part[0] == '-' && part[1] == '-' {
        ParseState { pending: Some(part.skip(2)), ..st }
    } else if st.pending is Some {
        ParseState { params: st.params.push((st.pending->Some_0, part)), pending: None, ..st }
    } else {
        ParseState { args: st.args.push(part), ..st }
    }
}

/// The parser run over all of `parts`.
pub open spec fn parse_run(parts: Seq<Seq<char>>) -> ParseState
    decreases parts.len(),
{
    if parts.len() == 0 {
        ParseState { params: Seq::empty(), args: Seq::empty(), pending: None }
    } else {
        parse_step(parse_run(parts.drop_last()), parts.last())
    }
}

/// A parsed console call: the command word, named parameters in the order
/// they were closed (a lookup takes the last occurrence of a name), and the
/// positional arguments.
pub struct CmdCall {
    pub command: String,
    pub params: Vec<(String, String)>,
    pub args: Vec<String>,
}

/// The character sequences of a list of parameter pairs.
pub open spec fn pair_strs(ps: Seq<(String, String)>) -> Seq<(Seq<char>, Seq<char>)> {
    ps.map_values(|p: (String, String)| (p.0@, p.1@))
}

/// Parses command parts: the first part is the command word, the rest feed
/// the parameter and argument parser.  `None` exactly when there is no part.
pub fn parse_parts(parts: Vec<String>) -> (r: Option<CmdCall>)
    ensures
        r is Some <==> parts@.len() > 0,
        r is Some ==> ({
            let call = r->Some_0;
            let st = parse_run(strs(parts@).drop_first());
            &&& call.command@ == strs(parts@)[0]
            &&& pair_strs(call.params@) == st.params
            &&& strs(call.args@) == st.args
        }),
{
    if parts.len() == 0 {
        return None;
    }
    let n = parts.len();
    let ghost rest = strs(parts@).drop_first();
    let command = parts[0].clone();
    let mut params: Vec<(String, String)> = Vec::new();
    let mut args: Vec<String> = Vec::new();
    let mut param_name: Option<String> = None;
    let mut i: usize = 1;
    proof {
        assert(rest.take(0) =~= Seq::<Seq<char>>::empty());
        let st0 = ParseState {
            params: pair_strs(Seq::<(String, String)>::empty()),
            args: strs(Seq::<String>::empty()),
            pending: None,
        };
        assert(st0 =~= parse_run(rest.take(0)));
    }
    while i < n
        invariant
            n == parts@.len(),
            1 <= i <= n,
            rest == strs(parts@).drop_first(),
            rest.len() == n - 1,
            (ParseState {
                params: pair_strs(params@),
                args: strs(args@),
                pending: match param_name {
                    Some(ref q) => Some(q@),
                    None => None,
                },
            }) == parse_run(rest.take(i - 1)),
        decreases n - i,
    {
        let ghost pre = ParseState {
            params: pair_strs(params@),
            args: strs(args@),
            pending: match param_name {
                Some(ref q) => Some(q@),
                None => None,
            },
        };
        let part = parts[i].clone();
        let chars = str_chars(part.as_str());
        let dashes = chars.len() >= 2 && chars[0] == '-' && chars[1] == '-';
        if dashes {
            let mut name: Vec<char> = Vec::new();
            let mut j: usize = 2;
            while j < chars.len()
                invariant
                    2 <= j <= chars@.len(),
                    name@ == chars@.subrange(2, j as int),
                decreases chars@.len() - j,
            {
                let c = chars[j];
                name.push(c);
                j += 1;
                proof {
                    assert(name@ =~= chars@.subrange(2, j as int));
                }
            }
            proof {
                assert(name@ =~= part@.skip(2));
            }
            param_name = Some(chars_str(&name));
        } else if param_name.is_some() {
            let pname = match param_name {
                Some(q) => q,
                None => vstd::pervasive::unreached(),
            };
            params.push((pname, part));
            param_name = None;
        } else {
            args.push(part);
        }
        i += 1;
        proof {
            assert(rest.take(i - 1).drop_last() =~= rest.take(i - 2));
            assert(rest.take(i - 1).last() == rest[i - 2]);
            assert(rest[i - 2] == parts@[i - 1]@);
            let post = ParseState {
                params: pair_strs(params@),
                args: strs(args@),
                pending: match param_name {
                    Some(ref q) => Some(q@),
                    None => None,
                },
            };
            assert(post =~= parse_step(pre, rest[i - 2])) by {
                assert(post.params =~= parse_step(pre, rest[i - 2]).params);
                assert(post.args =~= parse_step(pre, rest[i - 2]).args);
            }
        }
    }
    proof {
        assert(rest.take(n - 1) =~= rest);
    }
    Some(CmdCall { command, params, args })
}

// ---------------------------------------------------------------------------
// Parsing a decimal u32, as the console's `set-size` argument.
// ---------------------------------------------------------------------------
/// The digit characters of a decimal literal: an optional leading `+` sign
/// is dropped.
pub open spec fn digit_seq(s: Seq<char>) -> Seq<char> {
    if s.len() > 0 && s[0] == '+' {
        s.drop_first()
    } else {
        s
    }
}

/// A non-empty, all-decimal-digit character sequence.
pub open spec fn all_digits(s: Seq<char>) -> bool {
    s.len() > 0 && forall|i: int| 0 <= i < s.len() ==> 0x30 <= #[trigger] s[i] as u32 <= 0x39
}

/// The value a decimal digit sequence spells.
pub open spec fn digits_val(s: Seq<char>) -> int
    decreases s.len(),
{
    if s.len() == 0 {
        0
    } else {
        digits_val(s.drop_last()) * 10 + (s.last() as u32 - 0x30)
    }
}

/// The value of an all-digit sequence is never negative.
proof fn lemma_digits_val_nonneg(s: Seq<char>)
    requires
        forall|i: int| 0 <= i < s.len() ==> 0x30 <= #[trigger] s[i] as u32 <= 0x39,
    ensures
        digits_val(s) >= 0,
    decreases s.len(),
{
    if s.len() > 0 {
        lemma_digits_val_nonneg(s.drop_last());
    }
}

/// Appending digits never shrinks the value.
proof fn lemma_digits_val_prefix(s: Seq<char>, i: int)
    requires
        forall|j: int| 0 <= j < s.len() ==> 0x30 <= #[trigger] s[j] as u32 <= 0x39,
        0 <= i <= s.len(),
    ensures
        digits_val(s.take(i)) <= digits_val(s),
    decreases s.len() - i,
{
    if i == s.len() {
        assert(s.take(i) =~= s);
    } else {
        assert(s.take(i + 1).drop_last() =~= s.take(i));
        assert(s.take(i + 1).last() == s[i]);
        lemma_digits_val_nonneg(s.take(i));
        lemma_digits_val_prefix(s, i + 1);
    }
}

/// Parse a decimal `u32`, accepting an optional leading `+`: exactly what
/// succeeds is a non-empty run of digits whose value fits.
pub fn parse_u32(s: &str) -> (r: Option<u32>)
    ensures
        r is Some <==> all_digits(digit_seq(s@)) && digits_val(digit_seq(s@)) <= u32::MAX,
        r is Some ==> r->Some_0 == digits_val(digit_seq(s@)),
{
    let chars = str_chars(s);
    let has_sign = chars.len() > 0 && chars[0] == '+';
    let start: usize = if has_sign {
        1
    } else {
        0
    };
    let ghost d = digit_seq(s@);
    proof {
        assert(d =~= chars@.skip(start as int));
    }
    if chars.len() == start {
        return None;
    }
    let mut acc: u32 = 0;
    let mut i: usize = start;
    proof {
        assert(d.take(0) =~= Seq::<char>::empty());
    }
    while i < chars.len()
        invariant
            start <= i <= chars@.len(),
            start <= chars@.len(),
            chars@ == s@,
            d == chars@.skip(start as int),
            d == digit_seq(s@),
            forall|j: int| 0 <= j < i - start ==> 0x30 <= #[trigger] d[j] as u32 <= 0x39,
            acc == digits_val(d.take(i - start)),
        decreases chars@.len() - i,
    {
        let c = chars[i];
        let u = c as u32;
        if u < 0x30 || u > 0x39 {
            proof {
                assert(d[i - start] as u32 == u);
                assert(!all_digits(d));
            }
            return None;
        }
        let dig = u - 0x30;
        let next = match acc.checked_mul(10) {
            Some(m) => m.checked_add(dig),
            None => None,
        };
        proof {
            assert(d.take(i - start + 1).drop_last() =~= d.take(i - start));
            assert(d.take(i - start + 1).last() == d[i - start]);
        }
        match next {
            Some(v) => {
                acc = v;
            },
            None => {
                proof {
                    if all_digits(d) {
                        lemma_digits_val_prefix(d, i - start + 1);
                        assert(digits_val(d) > u32::MAX);
                    }
                }
                return None;
            },
        }
        i += 1;
    }
    proof {
        assert(d.take(chars@.len() - start) =~= d);
        assert(all_digits(d));
    }
    Some(acc)
}

// ---------------------------------------------------------------------------
// Running a console command.
// ---------------------------------------------------------------------------
/// What one console command decides: lines to send back to the issuing
/// client, and mutation events to hand to the tick engine.
pub struct CommandOutcome {
    pub lines: Vec<String>,
    pub updates: Vec<UpdateMsg>,
}

/// Runs an admin command line against the current client listing.  The
/// caller sends `lines` back over the issuing connection and queues
/// `updates` for the tick engine.
pub fn run_command(client_infos: &Vec<String>, command: &str) -> (out: CommandOutcome)
    ensures
        ({
            let toks = spec_split(command@);
            let st = parse_run(toks.drop_first());
            if toks.len() == 0 {
                out.lines@.len() == 0 && out.updates@.len() == 0
            } else if toks[0] == "help"@ {
                &&& out.lines@.len() == 1
                &&& out.lines@[0]@ == "Commands: set-size, broadcast, list-clients"@
                &&& out.updates@.len() == 0
            } else if toks[0] == "set-size"@ {
                if st.args.len() < 1 {
                    &&& out.lines@.len() == 1
                    &&& out.lines@[0]@ == "set-size <size>"@
                    &&& out.updates@.len() == 0
                } else if all_digits(digit_seq(st.args[0])) && digits_val(digit_seq(st.args[0]))
                    <= u32::MAX {
                    &&& out.lines@.len() == 0
                    &&& out.updates@.len() == 1
                    &&& out.updates@[0] is SetSize
                    &&& out.updates@[0]->SetSize_0 == digits_val(digit_seq(st.args[0]))
                } else {
                    &&& out.lines@.len() == 1
                    &&& out.lines@[0]@ == "set-size <size: integer>"@
                    &&& out.updates@.len() == 0
                }
            } else if toks[0] == "broadcast"@ {
                if st.args.len() < 1 {
                    &&& out.lines@.len() == 1
                    &&& out.lines@[0]@ == "broadcast <message>"@
                    &&& out.updates@.len() == 0
                } else {
                    &&& out.lines@.len() == 0
                    &&& out.updates@.len() == 1
                    &&& out.updates@[0] is Broadcast
                    &&& out.updates@[0]->Broadcast_text@ == st.args[0]
                }
            } else if toks[0] == "list-clients"@ {
                &&& strs(out.lines@) == strs(client_infos@)
                &&& out.updates@.len() == 0
            } else {
                &&& out.lines@.len() == 1
                &&& out.lines@[0]@ == "Unknown command, `help` for help"@
                &&& out.updates@.len() == 0
            }
        }),
{
    let parts = split_command(command);
    let mut lines: Vec<String> = Vec::new();
    let mut updates: Vec<UpdateMsg> = Vec::new();
    let call = match parse_parts(parts) {
        Some(call) => call,
        None => {
            return CommandOutcome { lines, updates };
        },
    };
    if call.command == String::from_str("help") {
        lines.push(String::from_str("Commands: set-size, broadcast, list-clients"));
    } else if call.command == String::from_str("set-size") {
        if call.args.len() < 1 {
            lines.push(String::from_str("set-size <size>"));
        } else {
            match parse_u32(call.args[0].as_str()) {
                Some(size) => {
                    updates.push(UpdateMsg::SetSize(size));
                },
                None => {
                    lines.push(String::from_str("set-size <size: integer>"));
                },
            }
        }
    } else if call.command == String::from_str("broadcast") {
        if call.args.len() < 1 {
            lines.push(String::from_str("broadcast <message>"));
        } else {
            let text = call.args[0].clone();
            updates.push(UpdateMsg::Broadcast { text });
        }
    } else if call.command == String::from_str("list-clients") {
        let mut i: usize = 0;
        while i < client_infos.len()
            invariant
                i <= client_infos@.len(),
                lines@.len() == i,
                forall|j: int| 0 <= j < i ==> #[trigger] lines@[j]@ == client_infos@[j]@,
            decreases client_infos@.len() - i,
        {
            let line = client_infos[i].clone();
            lines.push(line);
            i += 1;
        }
        proof {
            assert(strs(lines@) =~= strs(client_infos@));
        }
    } else {
        lines.push(String::from_str("Unknown command, `help` for help"));
    }
    CommandOutcome { lines, updates }
}

// ---------------------------------------------------------------------------
// The tokenizer round trip on space-joined clean tokens.
// ---------------------------------------------------------------------------
/// A token that survives a space-joined round trip: non-empty, with no
/// whitespace, quote, or backslash characters.
pub open spec fn clean_token(t: Seq<char>) -> bool {
    t.len() > 0 && forall|i: int|
        0 <= i < t.len() ==> !is_space(#[trigger] t[i]) && t[i] != '\'' && t[i] != '"' && t[i]
            != '\\'
}

/// The tokens joined by single spaces.
pub open spec fn join_spaces(toks: Seq<Seq<char>>) -> Seq<char>
    decreases toks.len(),
{
    if toks.len() == 0 {
        Seq::empty()
    } else if toks.len() == 1 {
        toks[0]
    } else {
        join_spaces(toks.drop_last()) + seq![' '] + toks.last()
    }
}

/// Running the tokenizer over a concatenation runs it over the pieces in
/// turn.
proof fn lemma_split_run_concat(st: SplitState, s1: Seq<char>, s2: Seq<char>)
    ensures
        split_run(st, s1 + s2) == split_run(split_run(st, s1), s2),
    decreases s2.len(),
{
    if s2.len() == 0 {
        assert(s1 + s2 =~= s1);
    } else {
        assert((s1 + s2).drop_last() =~= s1 + s2.drop_last());
        assert((s1 + s2).last() == s2.last());
        lemma_split_run_concat(st, s1, s2.drop_last());
    }
}

/// Outside quotes and escapes, a run of clean characters only extends the
/// current part.
proof fn lemma_split_run_clean(st: SplitState, t: Seq<char>)
    requires
        st.quotes is None,
        !st.prev_backslash,
        forall|i: int|
            0 <= i < t.len() ==> !is_space(#[trigger] t[i]) && t[i] != '\'' && t[i] != '"' && t[i]
                != '\\',
    ensures
        split_run(st, t) == (SplitState { part: st.part + t, ..st }),
    decreases t.len(),
{
    if t.len() == 0 {
        assert(st.part + t =~= st.part);
        assert(split_run(st, t) =~= (SplitState { part: st.part + t, ..st }));
    } else {
        lemma_split_run_clean(st, t.drop_last());
        let mid = split_run(st, t.drop_last());
        let c = t.last();
        assert(!is_space(c) && c != '\'' && c != '"' && c != '\\');
        assert(split_step(mid, c) =~= (SplitState { part: st.part + t, ..st })) by {
            assert(split_step(mid, c).part =~= st.part + t);
        }
    }
}

/// The tokenizer state after a non-empty list of clean tokens joined by
/// spaces: the last token is still open, the others are finished parts.
proof fn lemma_split_join_state(toks: Seq<Seq<char>>)
    requires
        toks.len() > 0,
        forall|i: int| 0 <= i < toks.len() ==> clean_token(#[trigger] toks[i]),
    ensures
        split_run(split_init(), join_spaces(toks)) == (SplitState {
            quotes: None,
            prev_backslash: false,
            part: toks.last(),
            parts: toks.drop_last(),
        }),
    decreases toks.len(),
{
    if toks.len() == 1 {
        assert(clean_token(toks[0]));
        lemma_split_run_clean(split_init(), toks[0]);
        assert(Seq::<char>::empty() + toks[0] =~= toks[0]);
        assert(split_run(split_init(), join_spaces(toks)) =~= (SplitState {
            quotes: None,
            prev_backslash: false,
            part: toks.last(),
            parts: toks.drop_last(),
        }));
    } else {
        let dl = toks.drop_last();
        let t = toks.last();
        assert(forall|i: int| 0 <= i < dl.len() ==> clean_token(#[trigger] dl[i]));
        lemma_split_join_state(dl);
        let r1 = split_run(split_init(), join_spaces(dl));
        lemma_split_run_concat(split_init(), join_spaces(dl), seq![' ']);
        assert(join_spaces(dl) + seq![' '] + t == join_spaces(toks));
        lemma_split_run_concat(split_init(), join_spaces(dl) + seq![' '], t);
        assert(seq![' '].drop_last() =~= Seq::<char>::empty());
        assert(seq![' '].last() == ' ');
        let r2 = split_step(r1, ' ');
        assert(split_run(r1, Seq::<char>::empty()) == r1);
        assert(split_run(r1, seq![' ']) == split_step(split_run(r1, seq![' '].drop_last()), ' '));
        assert(split_run(r1, seq![' ']) == r2);
        assert(is_space(' '));
        assert(clean_token(dl.last()));
        assert(r2.parts =~= dl);
        assert(clean_token(t));
        lemma_split_run_clean(r2, t);
        assert(r2.part + t =~= t);
        assert(split_run(split_init(), join_spaces(toks)) =~= (SplitState {
            quotes: None,
            prev_backslash: false,
            part: toks.last(),
            parts: toks.drop_last(),
        }));
    }
}

/// Law: a line made of clean tokens joined by single spaces splits back
/// into exactly those tokens.
pub proof fn lemma_split_join_round_trip(toks: Seq<Seq<char>>)
    requires
        forall|i: int| 0 <= i < toks.len() ==> clean_token(#[trigger] toks[i]),
    ensures
        spec_split(join_spaces(toks)) == toks,
{
    if toks.len() == 0 {
        assert(spec_split(join_spaces(toks)) =~= toks);
    } else {
        lemma_split_join_state(toks);
        assert(clean_token(toks.last()));
        assert(spec_split(join_spaces(toks)) =~= toks.drop_last().push(toks.last()));
        assert(toks.drop_last().push(toks.last()) =~= toks);
    }
}
} // verus!
