//! The record codec: every log record is one encoded [`Command`].
//!
//! A record is self-terminating: its end is found from its own content,
//! not from a length prefix. The shape is
//! `{S"key""value"}` for a `Put` and `{R"key"}` for a `Rm`, where the
//! quoted strings escape `"` and `\` with a leading backslash.

use vstd::prelude::*;

use crate::error::KvsError;

verus! {

/// One logical store operation; the unit written to the log.
#[derive(Debug, PartialEq)]
pub enum Command {
    /// Bind `key` to `value`.
    Put {
        /// The key being written.
        key: String,
        /// The value bound to the key.
        value: String,
    },
    /// Delete `key` (a tombstone in the log).
    Rm {
        /// The key being removed.
        key: String,
    },
}

/// The mathematical form of a [`Command`]: the same tag over character
/// sequences.
pub enum CommandModel {
    /// Bind `key` to `value`.
    Put {
        /// The key being written.
        key: Seq<char>,
        /// The value bound to the key.
        value: Seq<char>,
    },
    /// Delete `key`.
    Rm {
        /// The key being removed.
        key: Seq<char>,
    },
}

impl View for Command {
    type V = CommandModel;

    open spec fn view(&self) -> CommandModel {
        match self {
            Command::Put { key, value } => (CommandModel::Put { key: key@, value: value@ }),
            Command::Rm { key } => (CommandModel::Rm { key: key@ }),
        }
    }
}

/// How one character is written inside a quoted string.
pub open spec fn esc1(c: char) -> Seq<char> {
    if c == '"' || c == '\\' {
        seq!['\\', c]
    } else {
        seq![c]
    }
}

/// How a whole string is written inside quotes.
pub open spec fn esc(s: Seq<char>) -> Seq<char>
    decreases s.len(),
{
    if s.len() == 0 {
        Seq::empty()
    } else {
        esc1(s[0]) + esc(s.drop_first())
    }
}

/// A quoted string: `"` then the escaped content then `"`.
pub open spec fn qstr(s: Seq<char>) -> Seq<char> {
    seq!['"'] + esc(s) + seq!['"']
}

/// The characters that encode one command.
pub open spec fn encode_spec(c: CommandModel) -> Seq<char> {
    match c {
        CommandModel::Put { key, value } => seq!['{', 'S'] + qstr(key) + qstr(value) + seq!['}'],
        CommandModel::Rm { key } => seq!['{', 'R'] + qstr(key) + seq!['}'],
    }
}

/// Reads a quoted string's content starting at `i`, just after the opening
/// quote. Returns the unescaped content and the position just after the
/// closing quote, or `None` if the text ends before the string is closed.
pub open spec fn scan_str(s: Seq<char>, i: nat) -> Option<(Seq<char>, nat)>
    decreases s.len() - i,
{
    if i >= s.len() {
        None
    } else if s[i as int] == '"' {
        Some((Seq::empty(), (i + 1) as nat))
    } else if s[i as int] == '\\' {
        if i + 1 >= s.len() {
            None
        } else {
            match scan_str(s, (i + 2) as nat) {
                Some((t, j)) => Some((seq![s[i + 1 as int]] + t, j)),
                None => None,
            }
        }
    } else {
        match scan_str(s, (i + 1) as nat) {
            Some((t, j)) => Some((seq![s[i as int]] + t, j)),
            None => None,
        }
    }
}

/// Decodes exactly one record of `log` starting at position `p`.
/// Returns the command and the number of characters consumed, or `None`
/// if the text at `p` is not a complete record.
pub open spec fn decode_spec(log: Seq<char>, p: nat) -> Option<(CommandModel, nat)> {
    if p + 2 < log.len() && log[p as int] == '{' && log[p + 1 as int] == 'S' && log[p + 2 as int] == '"' {
        match scan_str(log, (p + 3) as nat) {
            Some((k, j)) => if j < log.len() && log[j as int] == '"' {
                match scan_str(log, (j + 1) as nat) {
                    Some((v, j2)) => if j2 < log.len() && log[j2 as int] == '}' {
                        Some(((CommandModel::Put { key: k, value: v }), (j2 + 1 - p) as nat))
                    } else {
                        None
                    },
                    None => None,
                }
            } else {
                None
            },
            None => None,
        }
    } else if p + 2 < log.len() && log[p as int] == '{' && log[p + 1 as int] == 'R' && log[p + 2 as int] == '"' {
        match scan_str(log, (p + 3) as nat) {
            Some((k, j)) => if j < log.len() && log[j as int] == '}' {
                Some(((CommandModel::Rm { key: k }), (j + 1 - p) as nat))
            } else {
                None
            },
            None => None,
        }
    } else {
        None
    }
}

/// A successful scan ends past its start and within the text.
pub proof fn lemma_scan_bounds(s: Seq<char>, i: nat)
    requires
        scan_str(s, i) is Some,
    ensures
        i < scan_str(s, i)->Some_0.1 <= s.len(),
    decreases s.len() - i,
{
    if i >= s.len() {
    } else if s[i as int] == '"' {
    } else if s[i as int] == '\\' {
        if i + 1 < s.len() && scan_str(s, (i + 2) as nat) is Some {
            lemma_scan_bounds(s, (i + 2) as nat);
        }
    } else {
        if scan_str(s, (i + 1) as nat) is Some {
            lemma_scan_bounds(s, (i + 1) as nat);
        }
    }
}

/// A successful decode consumes at least one and at most the remaining
/// characters.
pub proof fn lemma_decode_bounds(log: Seq<char>, p: nat)
    requires
        decode_spec(log, p) is Some,
    ensures
        1 <= decode_spec(log, p)->Some_0.1,
        p + decode_spec(log, p)->Some_0.1 <= log.len(),
{
    if p + 2 < log.len() && log[p as int] == '{' && log[p + 1 as int] == 'S' && log[p + 2 as int] == '"' {
        lemma_scan_bounds(log, (p + 3) as nat);
        let j = scan_str(log, (p + 3) as nat)->Some_0.1;
        lemma_scan_bounds(log, (j + 1) as nat);
    } else {
        lemma_scan_bounds(log, (p + 3) as nat);
    }
}

/// Escaping distributes over appending one character.
pub proof fn lemma_esc_push(s: Seq<char>, c: char)
    ensures
        esc(s.push(c)) == esc(s) + esc1(c),
    decreases s.len(),
{
    if s.len() == 0 {
        assert(s.push(c).drop_first() =~= Seq::<char>::empty());
        assert(s.push(c)[0] == c);
        assert(esc(Seq::<char>::empty()) =~= Seq::<char>::empty());
        assert(esc(s.push(c)) == esc1(c) + esc(Seq::<char>::empty()));
        assert(esc1(c) + Seq::<char>::empty() =~= esc1(c));
        assert(esc(s) + esc1(c) =~= esc1(c));
    } else {
        assert(s.push(c).drop_first() =~= s.drop_first().push(c));
        lemma_esc_push(s.drop_first(), c);
        assert(esc(s.push(c)) =~= esc(s) + esc1(c));
    }
}

/// Scanning text that spells an escaped string recovers that string.
pub proof fn lemma_scan_of_esc(s: Seq<char>, i: nat, x: Seq<char>)
    requires
        i + esc(x).len() + 1 <= s.len(),
        forall|d: int| 0 <= d < esc(x).len() ==> s[i + d] == esc(x)[d],
        s[i + esc(x).len() as int] == '"',
    ensures
        scan_str(s, i) == Some((x, (i + esc(x).len() + 1) as nat)),
    decreases x.len(),
{
    if x.len() == 0 {
        assert(s[i as int] == '"');
        assert(scan_str(s, i) == Some((Seq::<char>::empty(), (i + 1) as nat)));
        assert(x =~= Seq::<char>::empty());
    } else {
        let c = x[0];
        let x1 = x.drop_first();
        assert(esc(x) == esc1(c) + esc(x1));
        if c == '"' || c == '\\' {
            assert(esc(x)[0] == '\\');
            assert(esc(x)[1] == c);
            assert(s[i as int] == '\\');
            assert(s[i + 1 as int] == c);
            assert(forall|d: int|
                0 <= d < esc(x1).len() ==> s[i + 2 + d] == #[trigger] esc(x1)[d]) by {
                assert(forall|d: int|
                    0 <= d < esc(x1).len() ==> #[trigger] esc(x1)[d] == esc(x)[2 + d]);
            }
            assert(s[i + 2 + esc(x1).len() as int] == '"');
            lemma_scan_of_esc(s, (i + 2) as nat, x1);
            assert(seq![s[i + 1 as int]] + x1 =~= x);
        } else {
            assert(esc(x)[0] == c);
            assert(s[i as int] == c);
            assert(forall|d: int|
                0 <= d < esc(x1).len() ==> s[i + 1 + d] == #[trigger] esc(x1)[d]) by {
                assert(forall|d: int|
                    0 <= d < esc(x1).len() ==> #[trigger] esc(x1)[d] == esc(x)[1 + d]);
            }
            assert(s[i + 1 + esc(x1).len() as int] == '"');
            lemma_scan_of_esc(s, (i + 1) as nat, x1);
            assert(seq![s[i as int]] + x1 =~= x);
        }
    }
}

/// A successful scan is unchanged when more text follows.
pub proof fn lemma_scan_extend(s: Seq<char>, t: Seq<char>, i: nat)
    requires
        scan_str(s, i) is Some,
    ensures
        scan_str(s + t, i) == scan_str(s, i),
    decreases s.len() - i,
{
    assert(i < s.len());
    assert((s + t)[i as int] == s[i as int]);
    if s[i as int] == '"' {
    } else if s[i as int] == '\\' {
        assert(i + 1 < s.len());
        assert((s + t)[i + 1 as int] == s[i + 1 as int]);
        lemma_scan_extend(s, t, (i + 2) as nat);
    } else {
        lemma_scan_extend(s, t, (i + 1) as nat);
    }
}

/// A successful scan is unchanged when the text is cut anywhere past its end.
pub proof fn lemma_scan_take(s: Seq<char>, i: nat, m: nat)
    requires
        scan_str(s, i) is Some,
        scan_str(s, i)->Some_0.1 <= m <= s.len(),
    ensures
        scan_str(s.take(m as int), i) == scan_str(s, i),
    decreases s.len() - i,
{
    lemma_scan_bounds(s, i);
    assert(s.take(m as int)[i as int] == s[i as int]);
    if s[i as int] == '"' {
    } else if s[i as int] == '\\' {
        assert(i + 1 < s.len());
        lemma_scan_bounds(s, (i + 2) as nat);
        assert(i + 1 < m);
        assert(s.take(m as int)[i + 1 as int] == s[i + 1 as int]);
        lemma_scan_take(s, (i + 2) as nat, m);
    } else {
        lemma_scan_take(s, (i + 1) as nat, m);
    }
}

/// A successful decode is unchanged when more text follows.
pub proof fn lemma_decode_extend(log: Seq<char>, t: Seq<char>, p: nat)
    requires
        decode_spec(log, p) is Some,
    ensures
        decode_spec(log + t, p) == decode_spec(log, p),
{
    let l2 = log + t;
    assert(p + 2 < log.len());
    assert(l2[p as int] == log[p as int]);
    assert(l2[p + 1 as int] == log[p + 1 as int]);
    assert(l2[p + 2 as int] == log[p + 2 as int]);
    if log[p + 1 as int] == 'S' {
        let (k, j) = scan_str(log, (p + 3) as nat)->Some_0;
        lemma_scan_extend(log, t, (p + 3) as nat);
        assert(j < log.len());
        assert(l2[j as int] == log[j as int]);
        let (v, j2) = scan_str(log, (j + 1) as nat)->Some_0;
        lemma_scan_extend(log, t, (j + 1) as nat);
        assert(j2 < log.len());
        assert(l2[j2 as int] == log[j2 as int]);
    } else {
        let (k, j) = scan_str(log, (p + 3) as nat)->Some_0;
        lemma_scan_extend(log, t, (p + 3) as nat);
        assert(j < log.len());
        assert(l2[j as int] == log[j as int]);
    }
}

/// A successful decode is unchanged when the text is cut anywhere past the
/// record's end.
pub proof fn lemma_decode_take(log: Seq<char>, p: nat, m: nat)
    requires
        decode_spec(log, p) is Some,
        p + decode_spec(log, p)->Some_0.1 <= m <= log.len(),
    ensures
        decode_spec(log.take(m as int), p) == decode_spec(log, p),
{
    let lt = log.take(m as int);
    let n = decode_spec(log, p)->Some_0.1;
    assert(p + 2 < log.len());
    if log[p + 1 as int] == 'S' {
        let (k, j) = scan_str(log, (p + 3) as nat)->Some_0;
        let (v, j2) = scan_str(log, (j + 1) as nat)->Some_0;
        lemma_scan_bounds(log, (p + 3) as nat);
        lemma_scan_bounds(log, (j + 1) as nat);
        assert(n == j2 + 1 - p);
        assert(p + 2 < m);
        assert(lt[p as int] == log[p as int]);
        assert(lt[p + 1 as int] == log[p + 1 as int]);
        assert(lt[p + 2 as int] == log[p + 2 as int]);
        lemma_scan_take(log, (p + 3) as nat, m);
        assert(lt[j as int] == log[j as int]);
        lemma_scan_take(log, (j + 1) as nat, m);
        assert(lt[j2 as int] == log[j2 as int]);
    } else {
        let (k, j) = scan_str(log, (p + 3) as nat)->Some_0;
        lemma_scan_bounds(log, (p + 3) as nat);
        assert(n == j + 1 - p);
        assert(p + 2 < m);
        assert(lt[p as int] == log[p as int]);
        assert(lt[p + 1 as int] == log[p + 1 as int]);
        assert(lt[p + 2 as int] == log[p + 2 as int]);
        lemma_scan_take(log, (p + 3) as nat, m);
        assert(lt[j as int] == log[j as int]);
    }
}

/// Decoding at the boundary of an encoded record recovers that record and
/// consumes exactly its characters, whatever stands before and after.
pub proof fn lemma_decode_encode(pre: Seq<char>, c: CommandModel, post: Seq<char>)
    ensures
        decode_spec(pre + encode_spec(c) + post, pre.len()) == Some(
            (c, encode_spec(c).len()),
        ),
{
    let enc = encode_spec(c);
    let s = pre + enc + post;
    let p = pre.len();
    assert(forall|d: int| 0 <= d < enc.len() ==> s[p + d] == #[trigger] enc[d]);
    match c {
        CommandModel::Put { key, value } => {
            let ek = esc(key);
            let ev = esc(value);
            assert(enc =~= seq!['{', 'S', '"'] + ek + seq!['"', '"'] + ev + seq!['"', '}']);
            assert(enc.len() == 7 + ek.len() + ev.len());
            assert(s[p as int] == '{');
            assert(s[p + 1 as int] == 'S');
            assert(s[p + 2 as int] == '"');
            assert(forall|d: int| 0 <= d < ek.len() ==> #[trigger] enc[3 + d] == ek[d]);
            assert(enc[3 + ek.len() as int] == '"');
            lemma_scan_of_esc(s, (p + 3) as nat, key);
            let j = p + 3 + ek.len() + 1;
            assert(scan_str(s, (p + 3) as nat) == Some((key, j as nat)));
            assert(enc[4 + ek.len() as int] == '"');
            assert(s[j as int] == '"');
            assert(forall|d: int| 0 <= d < ev.len() ==> #[trigger] enc[5 + ek.len() + d] == ev[d]);
            assert(enc[5 + ek.len() + ev.len() as int] == '"');
            assert(forall|d: int|
                0 <= d < ev.len() ==> s[j + 1 + d] == #[trigger] ev[d]);
            assert(s[j + 1 + ev.len() as int] == '"');
            lemma_scan_of_esc(s, (j + 1) as nat, value);
            let j2 = j + 1 + ev.len() + 1;
            assert(scan_str(s, (j + 1) as nat) == Some((value, j2 as nat)));
            assert(enc[6 + ek.len() + ev.len() as int] == '}');
            assert(s[j2 as int] == '}');
            assert(j2 + 1 - p == enc.len());
        },
        CommandModel::Rm { key } => {
            let ek = esc(key);
            assert(enc =~= seq!['{', 'R', '"'] + ek + seq!['"', '}']);
            assert(enc.len() == 5 + ek.len());
            assert(s[p as int] == '{');
            assert(s[p + 1 as int] == 'R');
            assert(s[p + 2 as int] == '"');
            assert(forall|d: int| 0 <= d < ek.len() ==> #[trigger] enc[3 + d] == ek[d]);
            assert(enc[3 + ek.len() as int] == '"');
            lemma_scan_of_esc(s, (p + 3) as nat, key);
            let j = p + 3 + ek.len() + 1;
            assert(scan_str(s, (p + 3) as nat) == Some((key, j as nat)));
            assert(enc[4 + ek.len() as int] == '}');
            assert(s[j as int] == '}');
            assert(j + 1 - p == enc.len());
        },
    }
}

/// Relies on `String: FromIterator<char>`: collecting characters yields a
/// string whose characters are exactly the collected sequence.
#[verifier::external_body]
pub fn string_from_chars(v: &Vec<char>) -> (r: String)
    ensures
        r@ == v@,
{
    v.iter().collect()
}

/// The characters of a string, as an indexable vector.
pub fn chars_of_str(s: &str) -> (r: Vec<char>)
    ensures
        r@ == s@,
{
    let n = s.unicode_len();
    let mut r: Vec<char> = Vec::new();
    let mut i: usize = 0;
    while i < n
        invariant
            i <= n,
            n == s@.len(),
            r@ == s@.take(i as int),
        decreases n - i,
    {
        let c = s.get_char(i);
        r.push(c);
        assert(s@.take(i + 1 as int) =~= s@.take(i as int).push(s@[i as int]));
        i = i + 1;
    }
    assert(s@.take(n as int) =~= s@);
    r
}

/// Appends the quoted, escaped form of `s` to `out`.
fn push_qstr(out: &mut Vec<char>, s: &str)
    ensures
        final(out)@ == old(out)@ + qstr(s@),
{
    out.push('"');
    let n = s.unicode_len();
    let mut i: usize = 0;
    while i < n
        invariant
            i <= n,
            n == s@.len(),
            out@ == old(out)@ + seq!['"'] + esc(s@.take(i as int)),
        decreases n - i,
    {
        let c = s.get_char(i);
        if c == '"' || c == '\\' {
            out.push('\\');
        }
        out.push(c);
        proof {
            assert(s@.take(i + 1 as int) =~= s@.take(i as int).push(s@[i as int]));
            lemma_esc_push(s@.take(i as int), s@[i as int]);
        }
        i = i + 1;
    }
    assert(s@.take(n as int) =~= s@);
    out.push('"');
    assert(out@ =~= old(out)@ + qstr(s@));
}

/// Encodes one command as its record characters.
pub fn encode(c: &Command) -> (r: Vec<char>)
    ensures
        r@ == encode_spec(c@),
{
    let mut r: Vec<char> = Vec::new();
    r.push('{');
    match c {
        Command::Put { key, value } => {
            r.push('S');
            push_qstr(&mut r, key.as_str());
            push_qstr(&mut r, value.as_str());
        },
        Command::Rm { key } => {
            r.push('R');
            push_qstr(&mut r, key.as_str());
        },
    }
    r.push('}');
    assert(r@ =~= encode_spec(c@));
    r
}

/// Reads one quoted string of `log` starting at `i` (just after the opening
/// quote); returns its content and the position just after the closing quote.
fn scan_exec(log: &Vec<char>, i: usize) -> (r: Option<(Vec<char>, usize)>)
    requires
        i <= log@.len(),
    ensures
        match r {
            Some((t, j)) => scan_str(log@, i as nat) == Some((t@, j as nat)) && i < j <= log@.len(),
            None => scan_str(log@, i as nat) is None,
        },
    decreases log@.len() - i,
{
    if i >= log.len() {
        None
    } else if log[i] == '"' {
        Some((Vec::new(), i + 1))
    } else if log[i] == '\\' {
        if i + 1 >= log.len() {
            None
        } else {
            match scan_exec(log, i + 2) {
                Some((mut t, j)) => {
                    let ghost t0 = t@;
                    let c = log[i + 1];
                    t.insert(0, c);
                    assert(t@ =~= seq![log@[i + 1 as int]] + t0);
                    Some((t, j))
                },
                None => None,
            }
        }
    } else {
        match scan_exec(log, i + 1) {
            Some((mut t, j)) => {
                let ghost t0 = t@;
                let c = log[i];
                t.insert(0, c);
                assert(t@ =~= seq![log@[i as int]] + t0);
                Some((t, j))
            },
            None => None,
        }
    }
}

/// Decodes exactly one record of `log` starting at `pos`: the command and
/// the number of characters consumed. Malformed or truncated text is a
/// serialization error and consumes nothing.
pub fn decode_at(log: &Vec<char>, pos: usize) -> (r: Result<(Command, usize), KvsError>)
    ensures
        match r {
            Ok((c, n)) => decode_spec(log@, pos as nat) == Some((c@, n as nat)),
            Err(e) => decode_spec(log@, pos as nat) is None && e == KvsError::Serialization,
        },
{
    if pos < log.len() && log.len() - pos > 3 && log[pos] == '{' && log[pos + 2] == '"'
        && (log[pos + 1] == 'S' || log[pos + 1] == 'R') {
        if log[pos + 1] == 'S' {
            match scan_exec(log, pos + 3) {
                Some((k, j)) => {
                    if j < log.len() && log[j] == '"' {
                        match scan_exec(log, j + 1) {
                            Some((v, j2)) => {
                                if j2 < log.len() && log[j2] == '}' {
                                    let key = string_from_chars(&k);
                                    let value = string_from_chars(&v);
                                    Ok((Command::Put { key, value }, j2 + 1 - pos))
                                } else {
                                    Err(KvsError::Serialization)
                                }
                            },
                            None => Err(KvsError::Serialization),
                        }
                    } else {
                        Err(KvsError::Serialization)
                    }
                },
                None => Err(KvsError::Serialization),
            }
        } else {
            match scan_exec(log, pos + 3) {
                Some((k, j)) => {
                    if j < log.len() && log[j] == '}' {
                        let key = string_from_chars(&k);
                        Ok((Command::Rm { key }, j + 1 - pos))
                    } else {
                        Err(KvsError::Serialization)
                    }
                },
                None => Err(KvsError::Serialization),
            }
        }
    } else {
        Err(KvsError::Serialization)
    }
}

} // verus!
