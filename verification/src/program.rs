//! Running programs: a line typed at the prompt, and a program file.

use vstd::prelude::*;

use crate::execution::{ExecData, exec_outcome, reached, value_of_key};
use crate::fault::Fault;
use crate::text::{
    byte_len, byte_length, chars_of, nat_text, push_str, spec_trim, string_from, unicode_lowercase,
    usize_text,
};
use crate::tokenizer::{ValueEnum, ValueV, make_tokens, spec_make_tokens, strings_view};
use crate::runtime::Runtime;
use crate::variables::line_view;

verus! {

/// Some character of `s` is lower case.
pub open spec fn has_lowercase(s: Seq<char>) -> bool {
    exists|i: int| 0 <= i < s.len() && #[trigger] unicode_lowercase(s[i])
}

/// Whether some character of `s` is lower case.
pub fn includes_lowercase(s: &str) -> (r: bool)
    ensures
        r == has_lowercase(s@),
{
    let cs = chars_of(s);
    let mut i: usize = 0;
    while i < cs.len()
        invariant
            cs@ == s@,
            i <= cs@.len(),
            forall|j: int| 0 <= j < i ==> !unicode_lowercase(#[trigger] cs@[j]),
        decreases cs.len() - i,
    {
        if crate::text::char_is_lowercase(cs[i]) {
            assert(unicode_lowercase(s@[i as int]));
            return true;
        }
        i += 1;
    }
    false
}

/// Whether `s` holds only whitespace.
pub fn is_blank(s: &str) -> (r: bool)
    ensures
        r == (spec_trim(s@).len() == 0),
{
    let cs = chars_of(s);
    let (a, b) = crate::text::trim_bounds(cs.as_slice());
    a == b
}

/// The message for input with a lower-case character.
pub open spec fn lowercase_message() -> Seq<char> {
    "SYNTAX ERROR: INPUT INCLUDES LOWERCASE CHARACTER!"@
}

/// What the prompt answers after executing a line ended with `r1`: no
/// message after success, the message of a failed line.
pub open spec fn answers(r1: Result<Result<(), String>, Fault>, r: Result<Option<String>, Fault>) -> bool {
    match r1 {
        Err(f) => r == Err::<Option<String>, Fault>(f),
        Ok(Ok(_)) => r == Ok::<Option<String>, Fault>(None),
        Ok(Err(m)) => r == Ok::<Option<String>, Fault>(Some(m)),
    }
}

/// Handles a line typed at the prompt: a blank line does nothing; a line
/// with a lower-case character is refused; any other line is tokenized and
/// executed. The result is the message to print, if any. `steps` bounds the
/// loop rounds and nested calls that the line may make.
pub fn repl_input<R: Runtime>(
    exec_data_variable: &mut ExecData,
    input: String,
    rt: &mut R,
    steps: u64,
) -> (r: Result<Option<String>, Fault>)
    requires
        input@.len() < 0x7fff_ffff,
    ensures
        crate::execution::keeps_indentation(*old(exec_data_variable), *final(exec_data_variable)),
        spec_trim(input@).len() == 0 ==> r == Ok::<Option<String>, Fault>(None)
            && *final(exec_data_variable) == *old(exec_data_variable),
        spec_trim(input@).len() > 0 && has_lowercase(input@) ==> (r matches Ok(Some(m)) && m@
            == lowercase_message()) && *final(exec_data_variable) == *old(exec_data_variable),
        spec_trim(input@).len() > 0 && !has_lowercase(input@) ==> match spec_make_tokens(
            input@,
            old(exec_data_variable).global_variables@,
        ) {
            Err(f) => r == Err::<Option<String>, Fault>(f) && *final(exec_data_variable) == *old(exec_data_variable),
            Ok(ts) => exists|r1: Result<Result<(), String>, Fault>|
                #![trigger reached(*final(exec_data_variable), r1)]
                exec_outcome(*old(exec_data_variable), ts, false, steps as int, *final(exec_data_variable), r1)
                    && answers(r1, r),
        },
{
    if is_blank(input.as_str()) {
        return Ok(None);
    }
    if includes_lowercase(input.as_str()) {
        return Ok(Some(string_from("SYNTAX ERROR: INPUT INCLUDES LOWERCASE CHARACTER!")));
    }
    let tokens = match make_tokens(input, exec_data_variable) {
        Ok(t) => t,
        Err(f) => {
            return Err(f);
        },
    };
    let r1 = exec_data_variable.exec(tokens, false, rt, steps);
    let ghost g1 = r1;
    let answer = match r1 {
        Err(f) => Err(f),
        Ok(Ok(())) => Ok(None),
        Ok(Err(m)) => Ok(Some(m)),
    };
    proof {
        assert(reached(*exec_data_variable, g1));
    }
    answer
}


// ---------------------------------------------------------------------------
// Program files
// ---------------------------------------------------------------------------

/// The first line of the report of an error on line number `nr`.
pub open spec fn error_header(nr: nat, line: Seq<char>) -> Seq<char> {
    "- ERROR OCCURED ON LINE NR. "@ + nat_text(nr) + ": '"@ + line + "'"@
}

/// The second line of the report of an error with the message `m`.
pub open spec fn error_detail(m: Seq<char>) -> Seq<char> {
    "  -> "@ + m
}

/// How scanning the lines of a file for syntax errors ends.
pub enum Scanned {
    /// A line with a lower-case character stopped the scan; the lines to
    /// print.
    Stopped(Seq<Seq<char>>),
    /// All lines were scanned: the lines to print, the number of syntax
    /// errors, and the tokens and text of each line that is not blank.
    Done(Seq<Seq<char>>, nat, Seq<Seq<(Seq<char>, ValueV)>>, Seq<Seq<char>>),
}

/// The scan of the first `k` lines of a file for syntax errors, before
/// anything runs.
pub open spec fn scan_lines(lines: Seq<Seq<char>>, k: int) -> Result<Scanned, Fault>
    decreases k,
{
    if k <= 0 {
        Ok(Scanned::Done(Seq::empty(), 0, Seq::empty(), Seq::empty()))
    } else {
        match scan_lines(lines, k - 1) {
            Err(f) => Err(f),
            Ok(Scanned::Stopped(ms)) => Ok(Scanned::Stopped(ms)),
            Ok(Scanned::Done(ms, count, toks, kept)) => {
                let line = lines[k - 1];
                if spec_trim(line).len() == 0 {
                    Ok(Scanned::Done(ms, count, toks, kept))
                } else if has_lowercase(line) {
                    Ok(
                        Scanned::Stopped(
                            ms + seq![
                                error_header(k as nat, line),
                                error_detail("INPUT ERROR: INPUT INCLUDES LOWERCASE CHARACTER!"@),
                                "INTERPRETER STOPPPED!"@,
                            ],
                        ),
                    )
                } else {
                    match spec_make_tokens(line, Map::empty()) {
                        Err(f) => Err(f),
                        Ok(ts) => match value_of_key(ts, "ERROR_MESSAGE"@) {
                            None => Ok(Scanned::Done(ms, count, toks.push(ts), kept.push(line))),
                            Some(ValueV::String(m)) => Ok(
                                Scanned::Done(
                                    ms + seq![
                                        error_header(k as nat, line),
                                        error_detail("SYNTAX ERROR: "@ + m),
                                    ],
                                    count + 1,
                                    toks.push(ts),
                                    kept.push(line),
                                ),
                            ),
                            Some(_) => Err(Fault::Unreachable),
                        },
                    }
                }
            },
        }
    }
}

/// The lines printed when a file has `count` syntax errors.
pub open spec fn abort_lines(count: nat) -> Seq<Seq<char>> {
    seq![
        "\nABORTING DUE THE PREVIOUS "@ + nat_text(count) + if count == 1 {
            " ERROR!"@
        } else {
            " ERRORS!"@
        },
        "INTERPRETER STOPPED!"@,
    ]
}

/// The indentation of a line: one per leading space, four per leading tab.
pub open spec fn indentation_count(line: Seq<char>) -> nat
    decreases line.len(),
{
    if line.len() == 0 {
        0
    } else if line[0] == ' ' {
        1 + indentation_count(line.drop_first())
    } else if line[0] == '\t' {
        4 + indentation_count(line.drop_first())
    } else {
        0
    }
}

/// The indentation of a line: one per leading space, four per leading tab.
pub fn leading_indentation(line: &str) -> (r: u128)
    ensures
        r == indentation_count(line@),
{
    let cs = chars_of(line);
    let mut n: u128 = 0;
    let mut i: usize = 0;
    assert(cs@.skip(0) =~= cs@);
    while i < cs.len()
        invariant
            cs@ == line@,
            i <= cs@.len(),
            n <= 4 * i,
            indentation_count(line@) == n + indentation_count(cs@.skip(i as int)),
        decreases cs.len() - i,
    {
        assert(cs@.skip(i as int).drop_first() =~= cs@.skip(i + 1));
        if cs[i] == ' ' {
            n = n + 1;
        } else if cs[i] == '\t' {
            n = n + 4;
        } else {
            return n;
        }
        i += 1;
    }
    n
}


/// The state of a program before its first line runs.
pub open spec fn fresh_state(s: ExecData) -> bool {
    &&& s.global_variables@ == Map::<Seq<char>, ValueV>::empty()
    &&& s.indentation@ == Seq::<char>::empty()
    &&& s.block_code@.len() == 0
    &&& s.functions@ == Map::<Seq<char>, Seq<Seq<(Seq<char>, ValueV)>>>::empty()
    &&& s.current_block_type.0@ == Seq::<char>::empty()
    &&& s.current_block_type.1@ == Seq::<char>::empty()
    &&& s.printed@.len() == 0
}

/// The lines printed when line number `nr`, whose text is `line`, fails
/// with the message `m` while the program runs.
pub open spec fn runtime_error_lines(nr: nat, line: Seq<char>, m: Seq<char>) -> Seq<Seq<char>> {
    seq![error_header(nr, line), error_detail(m), "INTERPRETER STOPPED DUE PREVIOUS RUNTIME ERROR!"@]
}

/// Running the lines `ts[j..]` of a program (their texts are `kept`) from
/// the state `s`, and the lines `printed` that it gives (what the program
/// printed, then the report of how it ended): each line has to
/// be indented as the open blocks ask (one per space, four per tab, against
/// the bytes of the indentation), and then runs as `exec_outcome` says; the
/// first line that fails stops the program with a report; at the end every
/// block has to be closed.
pub open spec fn program_runs(
    s: ExecData,
    ts: Seq<Seq<(Seq<char>, ValueV)>>,
    kept: Seq<Seq<char>>,
    j: int,
    steps: int,
    printed: Result<Seq<Seq<char>>, Fault>,
) -> bool
    decreases ts.len() - j,
{
    if j < 0 || j >= ts.len() || j >= kept.len() {
        if s.indentation@.len() == 0 {
            printed == Ok::<Seq<Seq<char>>, Fault>(strings_view(s.printed@))
        } else if kept.len() == 0 {
            printed == Err::<Seq<Seq<char>>, Fault>(Fault::Unreachable)
        } else {
            printed == Ok::<Seq<Seq<char>>, Fault>(
                strings_view(s.printed@) + runtime_error_lines(
                    kept.len(),
                    kept.last(),
                    "EXECUTION ERROR: BLOCK CODE ISN'T CLOSED!"@,
                ),
            )
        }
    } else if byte_len(s.indentation@) != indentation_count(kept[j]) {
        printed == Ok::<Seq<Seq<char>>, Fault>(
            strings_view(s.printed@) + runtime_error_lines((j + 1) as nat, kept[j], "INDENTATION ERROR!"@),
        )
    } else {
        exists|mid: ExecData, r1: Result<Result<(), String>, Fault>|
            #![trigger reached(mid, r1)]
            exec_outcome(s, ts[j], false, steps, mid, r1) && match r1 {
                Err(f) => printed == Err::<Seq<Seq<char>>, Fault>(f),
                Ok(Err(e)) => printed == Ok::<Seq<Seq<char>>, Fault>(
                    strings_view(mid.printed@) + runtime_error_lines((j + 1) as nat, kept[j], e@),
                ),
                Ok(Ok(_)) => program_runs(mid, ts, kept, j + 1, steps, printed),
            }
    }
}

/// What a run printed after its first `k` lines.
pub open spec fn printed_after(r: Result<Vec<String>, Fault>, k: int) -> Result<Seq<Seq<char>>, Fault> {
    match r {
        Ok(v) => Ok(strings_view(v@).skip(k)),
        Err(f) => Err(f),
    }
}

/// The two lines that report an error with the message `m` on line number
/// `nr`, whose text is `line`, appended to `out`.
fn report_error(out: &mut Vec<String>, nr: usize, line: &String, m: &str)
    ensures
        strings_view(final(out)@) == strings_view(old(out)@) + seq![
            error_header(nr as nat, line@),
            error_detail(m@),
        ],
{
    let mut h = string_from("- ERROR OCCURED ON LINE NR. ");
    push_str(&mut h, usize_text(nr).as_str());
    push_str(&mut h, ": '");
    push_str(&mut h, line.as_str());
    push_str(&mut h, "'");
    let mut d = string_from("  -> ");
    push_str(&mut d, m);
    let ghost before = out@;
    out.push(h);
    out.push(d);
    assert(strings_view(out@) =~= strings_view(before) + seq![
        error_header(nr as nat, line@),
        error_detail(m@),
    ]);
}

/// Appends the lines `lines` to `out`.
fn append_lines(out: &mut Vec<String>, lines: &Vec<String>)
    ensures
        strings_view(final(out)@) == strings_view(old(out)@) + strings_view(lines@),
{
    let mut i: usize = 0;
    while i < lines.len()
        invariant
            i <= lines@.len(),
            strings_view(out@) == strings_view(old(out)@) + strings_view(lines@).take(i as int),
        decreases lines.len() - i,
    {
        let ghost before = strings_view(out@);
        let t = lines[i].clone();
        out.push(t);
        assert(strings_view(out@) =~= before.push(lines@[i as int]@));
        assert(strings_view(lines@).take(i + 1) =~= strings_view(lines@).take(i as int).push(lines@[i as int]@));
        i += 1;
    }
    assert(strings_view(lines@).take(lines@.len() as int) =~= strings_view(lines@));
}

/// Appends the line `m` to `out`.
fn say(out: &mut Vec<String>, m: &str)
    ensures
        strings_view(final(out)@) == strings_view(old(out)@).push(m@),
{
    let ghost before = out@;
    out.push(string_from(m));
    assert(strings_view(out@) =~= strings_view(before).push(m@));
}

/// Runs a program file, given as its lines: first every line that is not
/// blank is tokenized and scanned for syntax errors (a lower-case character
/// stops the scan); if there is none, the lines run in order until one
/// fails, is indented otherwise than the open blocks ask, or the file ends
/// inside a block. The result is every line to print: the syntax errors,
/// what the program printed, and the report of how it ended.
#[verifier::rlimit(30)]
pub fn run_file<R: Runtime>(lines: &Vec<String>, rt: &mut R, steps: u64) -> (r: Result<
    Vec<String>,
    Fault,
>)
    requires
        forall|i: int| 0 <= i < lines@.len() ==> (#[trigger] lines@[i])@.len() < 0x7fff_ffff,
    ensures
        match scan_lines(strings_view(lines@), lines@.len() as int) {
            Err(f) => r == Err::<Vec<String>, Fault>(f),
            Ok(Scanned::Stopped(ms)) => r matches Ok(v) && strings_view(v@) == ms,
            Ok(Scanned::Done(ms, count, ts, kept)) => if count > 0 {
                r matches Ok(v) && strings_view(v@) == ms + abort_lines(count)
            } else {
                &&& r matches Ok(v) ==> strings_view(v@).take(ms.len() as int) == ms
                &&& exists|s0: ExecData|
                    #[trigger] fresh_state(s0) && program_runs(s0, ts, kept, 0, steps as int, printed_after(r, ms.len() as int))
            },
        },
{
    let ghost lv = strings_view(lines@);
    let mut data = ExecData::new();
    let ghost fresh = data;
    let mut out: Vec<String> = Vec::new();
    let mut count: usize = 0;
    let mut tokenized: Vec<Vec<(String, ValueEnum)>> = Vec::new();
    let mut kept: Vec<String> = Vec::new();
    let mut i: usize = 0;
    assert(strings_view(out@) =~= Seq::<Seq<char>>::empty());
    assert(crate::variables::block_view(tokenized@) =~= Seq::<Seq<(Seq<char>, ValueV)>>::empty());
    assert(strings_view(kept@) =~= Seq::<Seq<char>>::empty());
    while i < lines.len()
        invariant
            lv == strings_view(lines@),
            forall|j: int| 0 <= j < lines@.len() ==> (#[trigger] lines@[j])@.len() < 0x7fff_ffff,
            i <= lines@.len(),
            count <= i,
            data == fresh,
            fresh.global_variables@ == Map::<Seq<char>, ValueV>::empty(),
            tokenized@.len() == kept@.len(),
            scan_lines(lv, i as int) == Ok::<Scanned, Fault>(
                Scanned::Done(
                    strings_view(out@),
                    count as nat,
                    crate::variables::block_view(tokenized@),
                    strings_view(kept@),
                ),
            ),
        decreases lines.len() - i,
    {
        let line = &lines[i];
        assert(lv[i as int] == line@);
        if is_blank(line.as_str()) {
            i += 1;
            continue;
        }
        if includes_lowercase(line.as_str()) {
            report_error(&mut out, i + 1, line, "INPUT ERROR: INPUT INCLUDES LOWERCASE CHARACTER!");
            say(&mut out, "INTERPRETER STOPPPED!");
            proof {
                lemma_scan_lines_stays(lv, i + 1, lines@.len() as int);
            }
            return Ok(out);
        }
        let tokens = match make_tokens(line.clone(), &mut data) {
            Ok(t) => t,
            Err(f) => {
                proof {
                    lemma_scan_lines_stays(lv, i + 1, lines@.len() as int);
                }
                return Err(f);
            },
        };
        let ghost ts = line_view(tokens@);
        proof {
            crate::execution::lemma_value_of_key(ts, "ERROR_MESSAGE"@);
        }
        match crate::execution::find_key(&tokens, "ERROR_MESSAGE") {
            None => {},
            Some(k) => {
                assert(ts[k as int] == (tokens@[k as int].0@, tokens@[k as int].1@));
                match &tokens[k].1 {
                    ValueEnum::String(v) => {
                        let mut m = string_from("SYNTAX ERROR: ");
                        push_str(&mut m, v.as_str());
                        report_error(&mut out, i + 1, line, m.as_str());
                        count = count + 1;
                    },
                    _ => {
                        proof {
                            lemma_scan_lines_stays(lv, i + 1, lines@.len() as int);
                        }
                        return Err(Fault::Unreachable);
                    },
                }
            },
        }
        let ghost tb = tokenized@;
        let ghost kb = kept@;
        tokenized.push(tokens);
        kept.push(line.clone());
        assert(crate::variables::block_view(tokenized@) =~= crate::variables::block_view(tb).push(ts));
        assert(strings_view(kept@) =~= strings_view(kb).push(line@));
        i += 1;
    }
    if count > 0 {
        let mut m = string_from("\nABORTING DUE THE PREVIOUS ");
        push_str(&mut m, usize_text(count).as_str());
        if count == 1 {
            push_str(&mut m, " ERROR!");
        } else {
            push_str(&mut m, " ERRORS!");
        }
        say(&mut out, m.as_str());
        say(&mut out, "INTERPRETER STOPPED!");
        return Ok(out);
    }
    let mut j: usize = 0;
    let ghost ms = strings_view(out@);
    let ghost ts = crate::variables::block_view(tokenized@);
    let ghost kv = strings_view(kept@);
    let ghost st = steps as int;
    assert(scan_lines(lv, lines@.len() as int) == Ok::<Scanned, Fault>(Scanned::Done(ms, 0, ts, kv)));
    assert(fresh_state(fresh));
    while j < tokenized.len()
        invariant
            j <= tokenized@.len() == kept@.len(),
            scan_lines(strings_view(lines@), lines@.len() as int) == Ok::<Scanned, Fault>(Scanned::Done(ms, 0, ts, kv)),
            ts == crate::variables::block_view(tokenized@),
            kv == strings_view(kept@),
            strings_view(out@) == ms,
            st == steps as int,
            fresh_state(fresh),
            forall|p: Result<Seq<Seq<char>>, Fault>|
                #[trigger] program_runs(data, ts, kv, j as int, st, p) ==> program_runs(fresh, ts, kv, 0, st, p),
        decreases tokenized.len() - j,
    {
        let ghost cur = data;
        assert(kv[j as int] == kept@[j as int]@);
        let want = leading_indentation(kept[j].as_str());
        let indentation_chars = chars_of(data.indentation.as_str());
        if byte_length(indentation_chars.as_slice()) != want {
            append_lines(&mut out, &data.printed);
            report_error(&mut out, j + 1, &kept[j], "INDENTATION ERROR!");
            say(&mut out, "INTERPRETER STOPPED DUE PREVIOUS RUNTIME ERROR!");
            assert(strings_view(out@).skip(ms.len() as int) =~= strings_view(data.printed@) + runtime_error_lines((j + 1) as nat, kv[j as int], "INDENTATION ERROR!"@));
            assert(program_runs(cur, ts, kv, j as int, st, printed_after(Ok::<Vec<String>, Fault>(out), ms.len() as int)));
            assert(strings_view(out@).take(ms.len() as int) =~= ms);
            return Ok(out);
        }
        let line_tokens = crate::execution::duplicate_line(&tokenized[j]);
        assert(line_view(line_tokens@) == ts[j as int]);
        let r1 = data.exec(line_tokens, false, rt, steps);
        let ghost mid = data;
        proof {
            assert(reached(mid, r1));
        }
        match r1 {
            Err(f) => {
                assert(program_runs(cur, ts, kv, j as int, st, Err::<Seq<Seq<char>>, Fault>(f)));
                return Err(f);
            },
            Ok(Err(e)) => {
                append_lines(&mut out, &data.printed);
                report_error(&mut out, j + 1, &kept[j], e.as_str());
                say(&mut out, "INTERPRETER STOPPED DUE PREVIOUS RUNTIME ERROR!");
                assert(strings_view(out@).skip(ms.len() as int) =~= strings_view(mid.printed@) + runtime_error_lines((j + 1) as nat, kv[j as int], e@));
                assert(strings_view(out@).take(ms.len() as int) =~= ms);
                assert(program_runs(cur, ts, kv, j as int, st, printed_after(Ok::<Vec<String>, Fault>(out), ms.len() as int)));
                return Ok(out);
            },
            Ok(Ok(())) => {
                assert forall|p: Result<Seq<Seq<char>>, Fault>|
                    #[trigger] program_runs(mid, ts, kv, j + 1, st, p) implies program_runs(fresh, ts, kv, 0, st, p) by {
                    assert(program_runs(cur, ts, kv, j as int, st, p));
                }
            },
        }
        j += 1;
    }
    if !data.indentation.as_str().is_empty() {
        if kept.len() == 0 {
            assert(program_runs(data, ts, kv, j as int, st, Err::<Seq<Seq<char>>, Fault>(Fault::Unreachable)));
            return Err(Fault::Unreachable);
        }
        let last = kept.len() - 1;
        append_lines(&mut out, &data.printed);
        report_error(&mut out, kept.len(), &kept[last], "EXECUTION ERROR: BLOCK CODE ISN'T CLOSED!");
        say(&mut out, "INTERPRETER STOPPED DUE PREVIOUS RUNTIME ERROR!");
        assert(kv.last() == kept@[last as int]@);
        assert(strings_view(out@).skip(ms.len() as int) =~= strings_view(data.printed@) + runtime_error_lines(kv.len(), kv.last(), "EXECUTION ERROR: BLOCK CODE ISN'T CLOSED!"@));
    } else {
        append_lines(&mut out, &data.printed);
        assert(strings_view(out@).skip(ms.len() as int) =~= strings_view(data.printed@));
    }
    assert(strings_view(out@).take(ms.len() as int) =~= ms);
    assert(program_runs(data, ts, kv, j as int, st, printed_after(Ok::<Vec<String>, Fault>(out), ms.len() as int)));
    Ok(out)
}

proof fn lemma_scan_lines_stays(lines: Seq<Seq<char>>, k: int, m: int)
    requires
        0 <= k <= m,
        !(scan_lines(lines, k) is Ok && scan_lines(lines, k)->Ok_0 is Done),
    ensures
        scan_lines(lines, m) == scan_lines(lines, k),
    decreases m - k,
{
    if m > k {
        lemma_scan_lines_stays(lines, k, m - 1);
    }
}

} // verus!
