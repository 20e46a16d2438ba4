//! The operation request handed to the archiver, and the command-line grammar
//! `Ark (add|extract|profile) "input" "output" -flags` that produces it.
use vstd::prelude::*;
use crate::error::ArchivalError;
use crate::header::{push_all, same_bytes};

verus! {

/// The operation an archiver session performs.
#[derive(Clone, Copy, PartialEq, Eq, Debug, Structural)]
pub enum Mode {
    /// Write the files under the input directory into the output archive.
    Add,
    /// Rebuild the tree stored in the input archive under the output directory.
    Extract,
    /// Report the compression statistics of one input file.
    Profile,
}

/// A fully resolved operation request: mode, input and output paths, and an
/// optional key kept for future use.
#[derive(PartialEq, Eq, Debug)]
pub struct Command {
    pub mode: Option<Mode>,
    pub input: Option<Vec<u8>>,
    pub output: Option<Vec<u8>>,
    pub key: Option<Vec<u8>>,
}

/// A word of the command line.
#[derive(PartialEq, Eq, Debug)]
pub enum Token {
    /// The leading `Ark`.
    Ark,
    /// A mode word, normalised to `add`, `x` or `p`.
    Mode(Vec<u8>),
    /// Text between double quotes.
    QuotedString(Vec<u8>),
    /// Any other word.
    GenericString(Vec<u8>),
    /// A word after `-`.
    Flag(Vec<u8>),
}

/// A token with its text as a sequence.
pub enum TokenModel {
    Ark,
    Mode(Seq<u8>),
    QuotedString(Seq<u8>),
    GenericString(Seq<u8>),
    Flag(Seq<u8>),
}

impl View for Token {
    type V = TokenModel;

    open spec fn view(&self) -> TokenModel {
        match self {
            Token::Ark => TokenModel::Ark,
            Token::Mode(s) => TokenModel::Mode(s@),
            Token::QuotedString(s) => TokenModel::QuotedString(s@),
            Token::GenericString(s) => TokenModel::GenericString(s@),
            Token::Flag(s) => TokenModel::Flag(s@),
        }
    }
}

/// The views of a list of tokens.
pub open spec fn token_views(v: Seq<Token>) -> Seq<TokenModel> {
    v.map_values(|t: Token| t@)
}

/// Double quote.
pub const QUOTE: u8 = 34;

/// Hyphen, which starts a flag.
pub const DASH: u8 = 45;

/// ASCII white space: space, tab, line feed, vertical tab, form feed, carriage
/// return.
pub open spec fn is_space(b: u8) -> bool {
    b == 32 || (9 <= b && b <= 13)
}

/// ASCII lower case of `b`.
pub open spec fn ascii_lower(b: u8) -> u8 {
    if 65 <= b && b <= 90 {
        (b + 32) as u8
    } else {
        b
    }
}

/// `w` equals `lower` ignoring ASCII case; `lower` is in lower case.
pub open spec fn equals_ignoring_case(w: Seq<u8>, lower: Seq<u8>) -> bool {
    w.len() == lower.len() && forall|i: int| 0 <= i < w.len() ==> ascii_lower(#[trigger] w[i]) == lower[i]
}

/// Index of the first white space in `t`, or its length.
pub open spec fn space_index(t: Seq<u8>) -> nat
    decreases t.len(),
{
    if t.len() == 0 || is_space(t[0]) {
        0
    } else {
        1 + space_index(t.skip(1))
    }
}

/// Index of the first `c` in `t`, or its length.
pub open spec fn byte_index(t: Seq<u8>, c: u8) -> nat
    decreases t.len(),
{
    if t.len() == 0 || t[0] == c {
        0
    } else {
        1 + byte_index(t.skip(1), c)
    }
}

/// What is left of `t` after its first `i` bytes and the stop byte after them.
pub open spec fn after_stop(t: Seq<u8>, i: nat) -> Seq<u8> {
    if i < t.len() {
        t.skip(i + 1int)
    } else {
        Seq::<u8>::empty()
    }
}

pub open spec fn word_ark() -> Seq<u8> {
    seq![97u8, 114, 107]
}

pub open spec fn word_a() -> Seq<u8> {
    seq![97u8]
}

pub open spec fn word_add() -> Seq<u8> {
    seq![97u8, 100, 100]
}

pub open spec fn word_x() -> Seq<u8> {
    seq![120u8]
}

pub open spec fn word_extract() -> Seq<u8> {
    seq![101u8, 120, 116, 114, 97, 99, 116]
}

pub open spec fn word_p() -> Seq<u8> {
    seq![112u8]
}

pub open spec fn word_profile() -> Seq<u8> {
    seq![112u8, 114, 111, 102, 105, 108, 101]
}

pub open spec fn word_k() -> Seq<u8> {
    seq![107u8]
}

/// The mode a word names, ignoring case.
pub open spec fn mode_of(w: Seq<u8>) -> Option<Mode> {
    if equals_ignoring_case(w, word_add()) || equals_ignoring_case(w, word_a()) {
        Some(Mode::Add)
    } else if equals_ignoring_case(w, word_extract()) || equals_ignoring_case(w, word_x()) {
        Some(Mode::Extract)
    } else if equals_ignoring_case(w, word_profile()) || equals_ignoring_case(w, word_p()) {
        Some(Mode::Profile)
    } else {
        None
    }
}

/// The token an unquoted, unflagged word becomes.
pub open spec fn classify(w: Seq<u8>) -> TokenModel {
    if equals_ignoring_case(w, word_ark()) {
        TokenModel::Ark
    } else {
        match mode_of(w) {
            Some(Mode::Add) => TokenModel::Mode(word_add()),
            Some(Mode::Extract) => TokenModel::Mode(word_x()),
            Some(Mode::Profile) => TokenModel::Mode(word_p()),
            None => TokenModel::GenericString(w),
        }
    }
}

/// The tokens of a command line. A word starting with `-` is a flag up to the
/// next white space; a word starting with `"` is quoted text up to the next
/// `"`, the rest of that word being dropped; any other word runs up to the
/// next white space.
pub open spec fn tokens_of(t: Seq<u8>) -> Seq<TokenModel>
    decreases t.len(),
{
    if t.len() == 0 {
        seq![]
    } else {
        let u = t.skip(1);
        if t[0] == DASH {
            let i = space_index(u);
            seq![TokenModel::Flag(u.take(i as int))] + tokens_of(after_stop(u, i))
        } else if t[0] == QUOTE {
            let i = byte_index(u, QUOTE);
            let w = after_stop(u, i);
            let j = space_index(w);
            seq![TokenModel::QuotedString(u.take(i as int))] + tokens_of(after_stop(w, j))
        } else {
            let i = space_index(u);
            seq![classify(seq![t[0]] + u.take(i as int))] + tokens_of(after_stop(u, i))
        }
    }
}

/// A first white space at index `k` (or none, `k` being the length) is what
/// `space_index` finds.
proof fn lemma_space_index(t: Seq<u8>, k: nat)
    requires
        k <= t.len(),
        forall|j: int| 0 <= j < k ==> !is_space(#[trigger] t[j]),
        k == t.len() || is_space(t[k as int]),
    ensures
        space_index(t) == k,
    decreases k,
{
    if k > 0 {
        let u = t.skip(1);
        assert forall|j: int| 0 <= j < k - 1 implies !is_space(#[trigger] u[j]) by {
            assert(u[j] == t[j + 1]);
        }
        if k < t.len() {
            assert(u[k - 1] == t[k as int]);
        }
        lemma_space_index(u, (k - 1) as nat);
    }
}

/// A first `c` at index `k` (or none, `k` being the length) is what
/// `byte_index` finds.
proof fn lemma_byte_index(t: Seq<u8>, c: u8, k: nat)
    requires
        k <= t.len(),
        forall|j: int| 0 <= j < k ==> #[trigger] t[j] != c,
        k == t.len() || t[k as int] == c,
    ensures
        byte_index(t, c) == k,
    decreases k,
{
    if k > 0 {
        let u = t.skip(1);
        assert forall|j: int| 0 <= j < k - 1 implies #[trigger] u[j] != c by {
            assert(u[j] == t[j + 1]);
        }
        if k < t.len() {
            assert(u[k - 1] == t[k as int]);
        }
        lemma_byte_index(u, c, (k - 1) as nat);
    }
}

fn is_space_byte(b: u8) -> (r: bool)
    ensures
        r == is_space(b),
{
    b == 32 || (9 <= b && b <= 13)
}

/// Copies `s[from..to]`.
fn copy_range(s: &Vec<u8>, from: usize, to: usize) -> (r: Vec<u8>)
    requires
        from <= to <= s@.len(),
    ensures
        r@ == s@.subrange(from as int, to as int),
{
    let mut out: Vec<u8> = Vec::new();
    let mut i: usize = from;
    while i < to
        invariant
            from <= i <= to <= s@.len(),
            out@ == s@.subrange(from as int, i as int),
        decreases to - i,
    {
        proof {
            assert(s@.subrange(from as int, i + 1) =~= s@.subrange(from as int, i as int).push(
                s@[i as int],
            ));
        }
        out.push(s[i]);
        i = i + 1;
    }
    out
}

/// Whether `w` equals the lower-case word `lower`, ignoring ASCII case.
fn same_ignoring_case(w: &Vec<u8>, lower: &Vec<u8>) -> (r: bool)
    ensures
        r == equals_ignoring_case(w@, lower@),
{
    if w.len() != lower.len() {
        return false;
    }
    let mut i: usize = 0;
    while i < w.len()
        invariant
            i <= w@.len() == lower@.len(),
            forall|j: int| 0 <= j < i ==> ascii_lower(#[trigger] w@[j]) == lower@[j],
        decreases w@.len() - i,
    {
        let b = w[i];
        let l = if 65 <= b && b <= 90 {
            b + 32
        } else {
            b
        };
        if l != lower[i] {
            return false;
        }
        i = i + 1;
    }
    true
}

impl Mode {
    /// The mode a word names, ignoring case: `add`/`a`, `extract`/`x`,
    /// `profile`/`p`. Any other word is refused.
    pub fn new(s: &Vec<u8>) -> (r: Result<Mode, ArchivalError>)
        ensures
            match mode_of(s@) {
                Some(m) => r == Ok::<Mode, ArchivalError>(m),
                None => r == Err::<Mode, ArchivalError>(ArchivalError::InvalidCommand),
            },
    {
        let add = vec![97u8, 100, 100];
        let a = vec![97u8];
        let extract = vec![101u8, 120, 116, 114, 97, 99, 116];
        let x = vec![120u8];
        let profile = vec![112u8, 114, 111, 102, 105, 108, 101];
        let p = vec![112u8];
        assert(add@ =~= word_add() && a@ =~= word_a() && extract@ =~= word_extract());
        assert(x@ =~= word_x() && profile@ =~= word_profile() && p@ =~= word_p());
        if same_ignoring_case(s, &add) || same_ignoring_case(s, &a) {
            Ok(Mode::Add)
        } else if same_ignoring_case(s, &extract) || same_ignoring_case(s, &x) {
            Ok(Mode::Extract)
        } else if same_ignoring_case(s, &profile) || same_ignoring_case(s, &p) {
            Ok(Mode::Profile)
        } else {
            Err(ArchivalError::InvalidCommand)
        }
    }
}

/// The token for an unquoted, unflagged word.
fn classify_word(w: Vec<u8>) -> (r: Token)
    ensures
        r@ == classify(w@),
{
    let ark = vec![97u8, 114, 107];
    assert(ark@ =~= word_ark());
    if same_ignoring_case(&w, &ark) {
        return Token::Ark;
    }
    match Mode::new(&w) {
        Ok(Mode::Add) => {
            let v = vec![97u8, 100, 100];
            assert(v@ =~= word_add());
            Token::Mode(v)
        },
        Ok(Mode::Extract) => {
            let v = vec![120u8];
            assert(v@ =~= word_x());
            Token::Mode(v)
        },
        Ok(Mode::Profile) => {
            let v = vec![112u8];
            assert(v@ =~= word_p());
            Token::Mode(v)
        },
        Err(_) => Token::GenericString(w),
    }
}

impl Command {
    /// Consumes bytes from `pos` up to the next white space, which is consumed
    /// too, and returns the bytes before it.
    fn consume_until_whitespace(s: &Vec<u8>, pos: &mut usize) -> (r: Vec<u8>)
        requires
            *old(pos) <= s@.len(),
        ensures
            ({
                let t = s@.skip(*old(pos) as int);
                let i = space_index(t);
                &&& r@ == t.take(i as int)
                &&& *final(pos) <= s@.len()
                &&& s@.skip(*final(pos) as int) == after_stop(t, i)
            }),
    {
        let ghost t = s@.skip(*pos as int);
        let start = *pos;
        let mut end: usize = start;
        while end < s.len() && !is_space_byte(s[end])
            invariant
                start <= end <= s@.len(),
                forall|j: int| start <= j < end ==> !is_space(#[trigger] s@[j]),
            decreases s@.len() - end,
        {
            end = end + 1;
        }
        proof {
            assert forall|j: int| 0 <= j < end - start implies !is_space(#[trigger] t[j]) by {
                assert(t[j] == s@[start + j]);
            }
            if end < s@.len() {
                assert(t[end - start] == s@[end as int]);
            }
            lemma_space_index(t, (end - start) as nat);
        }
        let r = copy_range(s, start, end);
        assert(r@ =~= t.take(end - start));
        if end < s.len() {
            *pos = end + 1;
            assert(s@.skip(end + 1) =~= t.skip(end - start + 1));
        } else {
            *pos = end;
            assert(s@.skip(end as int) =~= Seq::<u8>::empty());
        }
        r
    }

    /// Consumes bytes from `pos` up to the next `c`, which is consumed too,
    /// and returns the bytes before it.
    fn consume_until(s: &Vec<u8>, pos: &mut usize, c: u8) -> (r: Vec<u8>)
        requires
            *old(pos) <= s@.len(),
        ensures
            ({
                let t = s@.skip(*old(pos) as int);
                let i = byte_index(t, c);
                &&& r@ == t.take(i as int)
                &&& *final(pos) <= s@.len()
                &&& s@.skip(*final(pos) as int) == after_stop(t, i)
            }),
    {
        let ghost t = s@.skip(*pos as int);
        let start = *pos;
        let mut end: usize = start;
        while end < s.len() && s[end] != c
            invariant
                start <= end <= s@.len(),
                forall|j: int| start <= j < end ==> #[trigger] s@[j] != c,
            decreases s@.len() - end,
        {
            end = end + 1;
        }
        proof {
            assert forall|j: int| 0 <= j < end - start implies #[trigger] t[j] != c by {
                assert(t[j] == s@[start + j]);
            }
            if end < s@.len() {
                assert(t[end - start] == s@[end as int]);
            }
            lemma_byte_index(t, c, (end - start) as nat);
        }
        let r = copy_range(s, start, end);
        assert(r@ =~= t.take(end - start));
        if end < s.len() {
            *pos = end + 1;
            assert(s@.skip(end + 1) =~= t.skip(end - start + 1));
        } else {
            *pos = end;
            assert(s@.skip(end as int) =~= Seq::<u8>::empty());
        }
        r
    }

    /// Splits a command line into tokens.
    pub fn tokenize(s: &Vec<u8>) -> (r: Vec<Token>)
        ensures
            token_views(r@) == tokens_of(s@),
    {
        let mut tokens: Vec<Token> = Vec::new();
        let mut pos: usize = 0;
        assert(s@.skip(0) =~= s@);
        assert(token_views(tokens@) + tokens_of(s@) =~= tokens_of(s@));
        while pos < s.len()
            invariant
                pos <= s@.len(),
                tokens_of(s@) == token_views(tokens@) + tokens_of(s@.skip(pos as int)),
            decreases s@.len() - pos,
        {
            let ghost t = s@.skip(pos as int);
            let ghost u = t.skip(1);
            let c = s[pos];
            pos = pos + 1;
            assert(s@.skip(pos as int) =~= u);
            let tok: Token;
            if c == DASH {
                let w = Self::consume_until_whitespace(s, &mut pos);
                tok = Token::Flag(w);
            } else if c == QUOTE {
                let w = Self::consume_until(s, &mut pos, QUOTE);
                let _ = Self::consume_until_whitespace(s, &mut pos);
                tok = Token::QuotedString(w);
            } else {
                let mut w: Vec<u8> = vec![c];
                let rest = Self::consume_until_whitespace(s, &mut pos);
                push_all(&mut w, &rest);
                assert(w@ =~= seq![t[0]] + u.take(space_index(u) as int));
                tok = classify_word(w);
            }
            proof {
                let before = token_views(tokens@);
                assert(tokens_of(t) == seq![tok@] + tokens_of(s@.skip(pos as int)));
                assert(token_views(tokens@.push(tok)) =~= before.push(tok@));
                assert(before + (seq![tok@] + tokens_of(s@.skip(pos as int))) =~= before.push(tok@)
                    + tokens_of(s@.skip(pos as int)));
            }
            tokens.push(tok);
        }
        assert(s@.skip(pos as int) =~= Seq::<u8>::empty());
        assert(token_views(tokens@) + Seq::<TokenModel>::empty() =~= token_views(tokens@));
        tokens
    }
}

/// The view of an optional byte vector.
pub open spec fn opt_view(o: Option<Vec<u8>>) -> Option<Seq<u8>> {
    match o {
        Some(v) => Some(v@),
        None => None,
    }
}

/// What a command holds, with its texts as sequences.
pub struct CommandModel {
    pub mode: Option<Mode>,
    pub input: Option<Seq<u8>>,
    pub output: Option<Seq<u8>>,
    pub key: Option<Seq<u8>>,
}

impl View for Command {
    type V = CommandModel;

    open spec fn view(&self) -> CommandModel {
        CommandModel {
            mode: self.mode,
            input: opt_view(self.input),
            output: opt_view(self.output),
            key: opt_view(self.key),
        }
    }
}

/// The mode a token in mode position gives; a token of another kind gives
/// none.
pub open spec fn mode_token(t: TokenModel) -> Result<Option<Mode>, ArchivalError> {
    match t {
        TokenModel::Mode(w) => match mode_of(w) {
            Some(m) => Ok(Some(m)),
            None => Err(ArchivalError::InvalidCommand),
        },
        _ => Ok(None),
    }
}

/// The path a token in path position gives: quoted text, or none.
pub open spec fn path_token(t: TokenModel) -> Option<Seq<u8>> {
    match t {
        TokenModel::QuotedString(p) => Some(p),
        _ => None,
    }
}

/// The key that trailing options set, the last `-k` winning; `key` is the
/// key set so far. Each option is `-k` followed by a word or quoted text.
pub open spec fn options_key(ts: Seq<TokenModel>, key: Option<Seq<u8>>) -> Result<
    Option<Seq<u8>>,
    ArchivalError,
>
    decreases ts.len(),
{
    if ts.len() == 0 {
        Ok(key)
    } else if ts.len() >= 2 && ts[0] == TokenModel::Flag(word_k()) {
        match ts[1] {
            TokenModel::QuotedString(v) => options_key(ts.skip(2), Some(v)),
            TokenModel::GenericString(v) => options_key(ts.skip(2), Some(v)),
            _ => Err(ArchivalError::InvalidCommand),
        }
    } else {
        Err(ArchivalError::InvalidCommand)
    }
}

/// The token at `i`, when there is one.
pub open spec fn token_at(ts: Seq<TokenModel>, i: int) -> Option<TokenModel> {
    if 0 <= i < ts.len() {
        Some(ts[i])
    } else {
        None
    }
}

/// The command that a token list spells: `Ark`, then the mode, input and
/// output positions (each left empty when its token is of another kind, the
/// token being used up all the same), then options.
pub open spec fn command_of(ts: Seq<TokenModel>) -> Result<CommandModel, ArchivalError> {
    if ts.len() == 0 || ts[0] != TokenModel::Ark {
        Err(ArchivalError::InvalidCommand)
    } else {
        let mode = match token_at(ts, 1) {
            Some(t) => mode_token(t),
            None => Ok(None),
        };
        let input = match token_at(ts, 2) {
            Some(t) => path_token(t),
            None => None,
        };
        let output = match token_at(ts, 3) {
            Some(t) => path_token(t),
            None => None,
        };
        let rest = if ts.len() > 4 {
            ts.skip(4)
        } else {
            Seq::<TokenModel>::empty()
        };
        match mode {
            Err(e) => Err(e),
            Ok(m) => match options_key(rest, None) {
                Err(e) => Err(e),
                Ok(k) => Ok(CommandModel { mode: m, input, output, key: k }),
            },
        }
    }
}

/// Takes the first token, if any.
fn take_first(tokens: &mut Vec<Token>) -> (r: Option<Token>)
    ensures
        old(tokens)@.len() == 0 ==> r is None && final(tokens)@ == old(tokens)@,
        old(tokens)@.len() > 0 ==> r is Some && r->0@ == old(tokens)@[0]@ && final(tokens)@
            == old(tokens)@.skip(1),
{
    if tokens.len() == 0 {
        None
    } else {
        let t = tokens.remove(0);
        assert(old(tokens)@.remove(0) =~= old(tokens)@.skip(1));
        Some(t)
    }
}

impl Command {
    /// Parses a command line of the form
    /// `Ark (add|extract|profile) "input" "output" -k key`.
    pub fn new(src: &Vec<u8>) -> (r: Result<Command, ArchivalError>)
        ensures
            match command_of(tokens_of(src@)) {
                Ok(c) => r is Ok && r->Ok_0@ == c,
                Err(e) => r is Err && r->Err_0 == e,
            },
    {
        let mut toks = Self::tokenize(src);
        let ghost ts = token_views(toks@);
        proof {
            if toks@.len() > 0 {
                assert(ts[0] == toks@[0]@);
            }
        }
        match take_first(&mut toks) {
            Some(Token::Ark) => {},
            _ => {
                return Err(ArchivalError::InvalidCommand);
            },
        }
        proof {
            assert(token_views(toks@) =~= ts.skip(1));
        }
        let first = take_first(&mut toks);
        let mode = match first {
            Some(Token::Mode(w)) => Some(Mode::new(&w)?),
            _ => None,
        };
        proof {
            if ts.len() > 1 {
                assert(token_views(toks@) =~= ts.skip(2));
            }
        }
        let input = match take_first(&mut toks) {
            Some(Token::QuotedString(p)) => Some(p),
            _ => None,
        };
        proof {
            if ts.len() > 2 {
                assert(token_views(toks@) =~= ts.skip(3));
            }
        }
        let output = match take_first(&mut toks) {
            Some(Token::QuotedString(p)) => Some(p),
            _ => None,
        };
        proof {
            if ts.len() > 3 {
                assert(token_views(toks@) =~= ts.skip(4));
            } else {
                assert(token_views(toks@) =~= Seq::<TokenModel>::empty());
            }
        }
        let mut key: Option<Vec<u8>> = None;
        let k = vec![107u8];
        assert(k@ =~= word_k());
        let ghost rest0 = token_views(toks@);
        let ghost partial = CommandModel {
            mode,
            input: opt_view(input),
            output: opt_view(output),
            key: None,
        };
        assert(command_of(ts) == match options_key(rest0, None) {
            Err(e) => Err(e),
            Ok(kk) => Ok(CommandModel { key: kk, ..partial }),
        });
        while toks.len() > 0
            invariant
                k@ == word_k(),
                command_of(ts) == match options_key(rest0, None) {
                    Err(e) => Err(e),
                    Ok(kk) => Ok(CommandModel { key: kk, ..partial }),
                },
                tokens_of(src@) == ts,
                options_key(rest0, None) == options_key(
                    token_views(toks@),
                    opt_view(key),
                ),
            decreases toks@.len(),
        {
            let ghost before = token_views(toks@);
            proof {
                assert(before[0] == toks@[0]@);
                if toks@.len() > 1 {
                    assert(before[1] == toks@[1]@);
                }
            }
            let flag = take_first(&mut toks);
            let is_key = match flag {
                Some(Token::Flag(f)) => same_bytes(&f, &k),
                _ => false,
            };
            if !is_key {
                return Err(ArchivalError::InvalidCommand);
            }
            let value = take_first(&mut toks);
            match value {
                Some(Token::QuotedString(v)) => {
                    key = Some(v);
                },
                Some(Token::GenericString(v)) => {
                    key = Some(v);
                },
                _ => {
                    return Err(ArchivalError::InvalidCommand);
                },
            }
            proof {
                assert(token_views(toks@) =~= before.skip(2));
            }
        }
        assert(token_views(toks@) =~= Seq::<TokenModel>::empty());
        Ok(Command { mode, input, output, key })
    }
}

} // verus!
