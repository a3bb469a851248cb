//! The scanning engine: a single forward pass over the source buffer that
//! decides one token (or none) per position and an advance distance.
//!
//! The whole pass is specified by `spec_tokens_from`: the executable scanner
//! returns exactly the token models that spec function lists.  A source
//! buffer can still defeat the scan in one way — an integer literal outside
//! the 128-bit literal space, or a numeric word that is not a number at all;
//! `scan_fault` names that condition and `try_tokenize` reports it instead
//! of failing.

use vstd::math::min;
use vstd::prelude::*;
use vstd::string::StrSliceExecFns;

use crate::token::Keyword;
use crate::token::Operator;
use crate::token::Separator;
use crate::token::SpecToken;
use crate::token::Token;
use crate::token::TokenModel;
use crate::token::TokenVariant;
use crate::token::tokens_model;
use crate::value::BFloat;
use crate::value::BInteger;
use crate::value::BObject;
use crate::value::BString;
use crate::value::LexError;
use crate::value::fits_128;
use crate::value::int_text_ok;
use crate::value::int_text_value;
use crate::value::is_digit;
use crate::value::min_width_variant;

verus! {

/// An ASCII whitespace byte: space, tab, line feed, form feed or carriage
/// return.
pub open spec fn is_space(b: u8) -> bool {
    b == 32 || b == 9 || b == 10 || b == 12 || b == 13
}

/// The characters a run of bytes stands for, byte by byte: each byte is
/// read as the character with the same code point.
pub open spec fn chars_of(w: Seq<u8>) -> Seq<char> {
    w.map(|_i, b: u8| b as char)
}

/// The single-byte operator/separator table.  Both `>` and `<` map to the
/// greater-than operator: a documented quirk of the lexical surface that
/// consumers may rely on, reproduced here deliberately.
pub open spec fn single_model(b: u8) -> Option<TokenModel> {
    if b == 43 {
        Some(TokenModel::Op(Operator::Add))
    } else if b == 45 {
        Some(TokenModel::Op(Operator::Sub))
    } else if b == 42 {
        Some(TokenModel::Op(Operator::Mul))
    } else if b == 47 {
        Some(TokenModel::Op(Operator::Div))
    } else if b == 37 {
        Some(TokenModel::Op(Operator::Mod))
    } else if b == 61 {
        Some(TokenModel::Op(Operator::Eq))
    } else if b == 62 {
        Some(TokenModel::Op(Operator::Gt))
    } else if b == 60 {
        Some(TokenModel::Op(Operator::Gt))
    } else if b == 40 {
        Some(TokenModel::Sep(Separator::LParen))
    } else if b == 41 {
        Some(TokenModel::Sep(Separator::RParen))
    } else if b == 91 {
        Some(TokenModel::Sep(Separator::LBracket))
    } else if b == 93 {
        Some(TokenModel::Sep(Separator::RBracket))
    } else if b == 123 {
        Some(TokenModel::Sep(Separator::LCurly))
    } else if b == 125 {
        Some(TokenModel::Sep(Separator::RCurly))
    } else {
        None
    }
}

/// The two-byte operator table.
pub open spec fn double_model(a: u8, b: u8) -> Option<Operator> {
    if a == 60 && b == 45 {
        Some(Operator::LAssign)
    } else if a == 45 && b == 62 {
        Some(Operator::RAssign)
    } else if a == 60 && b == 62 {
        Some(Operator::Neq)
    } else if a == 60 && b == 60 {
        Some(Operator::Shl)
    } else if a == 62 && b == 62 {
        Some(Operator::Shr)
    } else if a == 62 && b == 61 {
        Some(Operator::Geq)
    } else if a == 60 && b == 61 {
        Some(Operator::Leq)
    } else if a == 42 && b == 42 {
        Some(Operator::Pow)
    } else if a == 47 && b == 47 {
        Some(Operator::FloorDiv)
    } else {
        None
    }
}

/// The keyword table: a word is a reserved word exactly when it equals one
/// of these byte runs.
pub open spec fn keyword_model(w: Seq<u8>) -> Option<Keyword> {
    if w =~= seq![68u8, 69, 67, 76, 65, 82, 69] {
        Some(Keyword::Declare)
    } else if w =~= seq![73u8, 70] {
        Some(Keyword::If)
    } else if w =~= seq![69u8, 76, 83, 69] {
        Some(Keyword::Else)
    } else if w =~= seq![69u8, 78, 68, 73, 70] {
        Some(Keyword::Endif)
    } else if w =~= seq![84u8, 72, 69, 78] {
        Some(Keyword::Then)
    } else if w =~= seq![67u8, 65, 83, 69] {
        Some(Keyword::Case)
    } else if w =~= seq![79u8, 70] {
        Some(Keyword::Of)
    } else if w =~= seq![70u8, 79, 82] {
        Some(Keyword::For)
    } else if w =~= seq![78u8, 69, 88, 84] {
        Some(Keyword::Next)
    } else if w =~= seq![84u8, 79] {
        Some(Keyword::To)
    } else if w =~= seq![82u8, 69, 80, 69, 65, 84] {
        Some(Keyword::Repeat)
    } else if w =~= seq![85u8, 78, 84, 73, 76] {
        Some(Keyword::Until)
    } else if w =~= seq![87u8, 72, 73, 76, 69] {
        Some(Keyword::While)
    } else if w =~= seq![69u8, 78, 68, 87, 72, 73, 76, 69] {
        Some(Keyword::Endwhile)
    } else if w =~= seq![70u8, 85, 78, 67, 84, 73, 79, 78] {
        Some(Keyword::Function)
    } else if w =~= seq![69u8, 78, 68, 70, 85, 78, 67, 84, 73, 79, 78] {
        Some(Keyword::Endfunction)
    } else if w =~= seq![82u8, 69, 84, 85, 82, 78] {
        Some(Keyword::Return)
    } else if w =~= seq![79u8, 85, 84, 80, 85, 84] {
        Some(Keyword::Output)
    } else if w =~= seq![73u8, 78, 80, 85, 84] {
        Some(Keyword::Input)
    } else if w =~= seq![67u8, 65, 76, 76] {
        Some(Keyword::Call)
    } else if w =~= seq![84u8, 82, 85, 69] {
        Some(Keyword::True)
    } else if w =~= seq![70u8, 65, 76, 83, 69] {
        Some(Keyword::False)
    } else {
        None
    }
}

/// The word with the digit-group separator byte (underscore) stripped.
pub open spec fn strip_seps(w: Seq<u8>) -> Seq<u8>
    decreases w.len(),
{
    if w.len() == 0 {
        w
    } else if w.last() == 95 {
        strip_seps(w.drop_last())
    } else {
        strip_seps(w.drop_last()).push(w.last())
    }
}

/// How many decimal-point bytes the word holds.
pub open spec fn dot_count(w: Seq<u8>) -> int
    decreases w.len(),
{
    if w.len() == 0 {
        0
    } else {
        dot_count(w.drop_last()) + if w.last() == 46 {
            1int
        } else {
            0int
        }
    }
}

/// A word routed to numeric classification: first byte a digit or a minus
/// sign.
pub open spec fn is_numeric_word(w: Seq<u8>) -> bool {
    w.len() > 0 && (is_digit(w[0]) || w[0] == 45)
}

/// A word routed to string-literal classification: first byte a double
/// quote.
pub open spec fn is_string_word(w: Seq<u8>) -> bool {
    w.len() > 0 && !(is_digit(w[0]) || w[0] == 45) && w[0] == 34
}

/// Index of the closing quote of a string word, searching from `j`; the
/// word's end when no closing quote appears (the capture then silently runs
/// to the word's end — a documented gap kept as it stands).
pub open spec fn quote_end(w: Seq<u8>, j: int) -> int
    decreases w.len() - j,
{
    if j < 0 || j >= w.len() {
        w.len() as int
    } else if w[j] == 34 {
        j
    } else {
        quote_end(w, j + 1)
    }
}

/// What literal classification makes of a word, if anything.
pub open spec fn literal_model(w: Seq<u8>) -> Option<TokenModel> {
    if is_numeric_word(w) {
        if dot_count(w) >= 2 {
            Some(TokenModel::BadLit)
        } else if dot_count(w) == 1 {
            Some(TokenModel::FloatLit(chars_of(strip_seps(w))))
        } else {
            Some(TokenModel::IntLit(min_width_variant(int_text_value(strip_seps(w)))))
        }
    } else if is_string_word(w) {
        Some(TokenModel::StrLit(chars_of(w.subrange(1, quote_end(w, 1)))))
    } else {
        None
    }
}

/// A word whose classification cannot fail: everything except an integer
/// word with a malformed or out-of-range digit text.
pub open spec fn lit_ok(w: Seq<u8>) -> bool {
    is_numeric_word(w) && dot_count(w) == 0 ==> int_text_ok(strip_seps(w)) && fits_128(
        int_text_value(strip_seps(w)),
    )
}

/// The fatal condition an integer word carries, when it carries one.
pub open spec fn lit_fault(w: Seq<u8>) -> LexError {
    if !int_text_ok(strip_seps(w)) {
        LexError::MalformedNumber
    } else {
        LexError::IntegerOverflow
    }
}

/// What a scanned word becomes: reserved word first, then literal, then
/// identifier verbatim.
pub open spec fn word_model(w: Seq<u8>) -> TokenModel {
    if keyword_model(w) is Some {
        TokenModel::Kw(keyword_model(w)->Some_0)
    } else if literal_model(w) is Some {
        literal_model(w)->Some_0
    } else {
        TokenModel::Name(chars_of(w))
    }
}

/// One past the last byte of the maximal non-whitespace run starting at
/// `j`.
pub open spec fn word_end(s: Seq<u8>, j: int) -> int
    decreases s.len() - j,
{
    if j < 0 || j >= s.len() {
        j
    } else if is_space(s[j]) {
        j
    } else {
        word_end(s, j + 1)
    }
}

/// First position at or after `j` where a closing block-comment delimiter
/// starts, or the first position within two bytes of the buffer end.
pub open spec fn find_close(s: Seq<u8>, j: int) -> int
    decreases s.len() - j,
{
    if j < 0 || j >= s.len() - 2 {
        j
    } else if s[j] == 59 && s[j + 1] == 59 && s[j + 2] == 59 {
        j
    } else {
        find_close(s, j + 1)
    }
}

/// First line terminator at or after `j`, or the buffer end.
pub open spec fn find_nl(s: Seq<u8>, j: int) -> int
    decreases s.len() - j,
{
    if j < 0 || j >= s.len() {
        j
    } else if s[j] == 10 {
        j
    } else {
        find_nl(s, j + 1)
    }
}

/// A block comment (three comment-start bytes) opens at `i`.
pub open spec fn is_block_start(s: Seq<u8>, i: int) -> bool {
    i + 3 <= s.len() && s[i] == 59 && s[i + 1] == 59 && s[i + 2] == 59
}

/// A line comment (two comment-start bytes) opens at `i`.
pub open spec fn is_line_start(s: Seq<u8>, i: int) -> bool {
    i + 2 <= s.len() && s[i] == 59 && s[i + 1] == 59
}

/// A two-byte operator stands at `i`.
pub open spec fn is_double_at(s: Seq<u8>, i: int) -> bool {
    i + 2 <= s.len() && double_model(s[i], s[i + 1]) is Some
}

/// A minus sign immediately followed by a digit opens a signed numeric
/// word rather than the subtraction operator.
pub open spec fn is_signed_number_start(s: Seq<u8>, i: int) -> bool {
    s[i] == 45 && i + 1 < s.len() && is_digit(s[i + 1])
}

/// The decision at position `i` scans a whole word.
pub open spec fn step_is_word(s: Seq<u8>, i: int) -> bool {
    &&& !is_space(s[i])
    &&& !is_block_start(s, i)
    &&& !is_line_start(s, i)
    &&& !is_double_at(s, i)
    &&& (is_signed_number_start(s, i) || single_model(s[i]) is None)
}

/// The word the decision at `i` scans.
pub open spec fn word_at(s: Seq<u8>, i: int) -> Seq<u8> {
    s.subrange(i, word_end(s, i))
}

/// The token the decision at position `i` emits, if any.
pub open spec fn step_tok(s: Seq<u8>, i: int) -> Option<SpecToken> {
    if is_space(s[i]) {
        None
    } else if is_block_start(s, i) || is_line_start(s, i) {
        None
    } else if is_double_at(s, i) {
        Some(
            SpecToken { variant: TokenModel::Op(double_model(s[i], s[i + 1])->Some_0), pos: i },
        )
    } else if is_signed_number_start(s, i) {
        Some(SpecToken { variant: word_model(word_at(s, i)), pos: i })
    } else if single_model(s[i]) is Some {
        Some(SpecToken { variant: single_model(s[i])->Some_0, pos: i })
    } else {
        Some(SpecToken { variant: word_model(word_at(s, i)), pos: i })
    }
}

/// The position the scan moves to after the decision at `i`.  A comment
/// skip repositions the cursor past the comment and the default advance of
/// one is still applied, so the byte right after a block comment's closing
/// delimiter is never examined; positions are clamped to the buffer end.
pub open spec fn step_next(s: Seq<u8>, i: int) -> int {
    if is_space(s[i]) {
        i + 1
    } else if is_block_start(s, i) {
        min(find_close(s, i + 2) + 4, s.len() as int)
    } else if is_line_start(s, i) {
        min(find_nl(s, i + 1) + 1, s.len() as int)
    } else if is_double_at(s, i) {
        i + 2
    } else if is_signed_number_start(s, i) {
        word_end(s, i)
    } else if single_model(s[i]) is Some {
        i + 1
    } else {
        word_end(s, i)
    }
}

/// The decision at `i` cannot fail fatally.
pub open spec fn step_ok(s: Seq<u8>, i: int) -> bool {
    step_is_word(s, i) ==> lit_ok(word_at(s, i))
}

proof fn lemma_word_end_bounds(s: Seq<u8>, j: int)
    requires
        0 <= j <= s.len(),
    ensures
        j <= word_end(s, j) <= s.len(),
    decreases s.len() - j,
{
    if j < s.len() && !is_space(s[j]) {
        lemma_word_end_bounds(s, j + 1);
    }
}

proof fn lemma_find_close_ge(s: Seq<u8>, j: int)
    requires
        0 <= j,
    ensures
        find_close(s, j) >= j,
    decreases s.len() - j,
{
    if !(j >= s.len() - 2) && !(s[j] == 59 && s[j + 1] == 59 && s[j + 2] == 59) {
        lemma_find_close_ge(s, j + 1);
    }
}

proof fn lemma_find_nl_ge(s: Seq<u8>, j: int)
    requires
        0 <= j,
    ensures
        find_nl(s, j) >= j,
    decreases s.len() - j,
{
    if j < s.len() && s[j] != 10 {
        lemma_find_nl_ge(s, j + 1);
    }
}

/// Every decision advances: the scan cannot stall, and positions stay
/// within the buffer.
pub proof fn lemma_step_next_bounds(s: Seq<u8>, i: int)
    requires
        0 <= i < s.len(),
    ensures
        i < step_next(s, i) <= s.len(),
{
    lemma_word_end_bounds(s, i);
    if i + 1 <= s.len() {
        lemma_word_end_bounds(s, i + 1);
    }
    lemma_find_close_ge(s, i + 2);
    lemma_find_nl_ge(s, i + 1);
}

/// Clamp of the next position used for termination measures; equal to
/// `step_next` whenever `i` is a valid position.
pub open spec fn step_next_clamped(s: Seq<u8>, i: int) -> int {
    let n = step_next(s, i);
    if n <= i {
        i + 1
    } else if n > s.len() {
        s.len() as int
    } else {
        n
    }
}

/// The tokens the scan emits from position `i` on, the end-of-input
/// sentinel excluded.
pub open spec fn tokens_from(s: Seq<u8>, i: int) -> Seq<SpecToken>
    decreases s.len() - i,
{
    if i < 0 || i >= s.len() {
        Seq::empty()
    } else {
        let rest = tokens_from(s, step_next_clamped(s, i));
        match step_tok(s, i) {
            Some(t) => seq![t] + rest,
            None => rest,
        }
    }
}

/// The first fatal literal condition the scan meets from position `i` on,
/// if any.
pub open spec fn scan_fault(s: Seq<u8>, i: int) -> Option<LexError>
    decreases s.len() - i,
{
    if i < 0 || i >= s.len() {
        None
    } else if !step_ok(s, i) {
        Some(lit_fault(word_at(s, i)))
    } else {
        scan_fault(s, step_next_clamped(s, i))
    }
}

/// The whole scan from position `i` succeeds.
pub open spec fn scan_ok_from(s: Seq<u8>, i: int) -> bool {
    scan_fault(s, i) is None
}

/// The whole scan of the buffer succeeds: no integer literal leaves the
/// 128-bit literal space and every numeric word is a number.
pub open spec fn scan_ok(s: Seq<u8>) -> bool {
    scan_ok_from(s, 0)
}

/// Where the end-of-input sentinel is positioned: the offset of the last
/// byte, or zero for an empty buffer.
pub open spec fn eof_pos(s: Seq<u8>) -> int {
    if s.len() == 0 {
        0
    } else {
        s.len() - 1
    }
}

/// The complete output of a scan from position `i`: the emitted tokens,
/// closed off by exactly one end-of-input sentinel.
pub open spec fn spec_tokens_from(s: Seq<u8>, i: int) -> Seq<SpecToken> {
    tokens_from(s, i).push(SpecToken { variant: TokenModel::End, pos: eof_pos(s) })
}

/// The complete output of a scan of the whole buffer.
pub open spec fn spec_tokens(s: Seq<u8>) -> Seq<SpecToken> {
    spec_tokens_from(s, 0)
}

proof fn lemma_no_eof_in_body(s: Seq<u8>, i: int)
    ensures
        forall|k: int|
            0 <= k < tokens_from(s, i).len() ==> (#[trigger] tokens_from(s, i)[k]).variant
                != TokenModel::End,
    decreases s.len() - i,
{
    if 0 <= i < s.len() {
        lemma_no_eof_in_body(s, step_next_clamped(s, i));
    }
}

/// Law: the scan's output always ends with exactly one end-of-input
/// sentinel — the last token is the sentinel, positioned at the last
/// byte's offset (at zero for an empty buffer), and no earlier token is
/// one.
pub proof fn lemma_single_eof(s: Seq<u8>, i: int)
    ensures
        spec_tokens_from(s, i).len() >= 1,
        spec_tokens_from(s, i).last().variant == TokenModel::End,
        spec_tokens_from(s, i).last().pos == eof_pos(s),
        forall|k: int|
            0 <= k < spec_tokens_from(s, i).len() - 1 ==> (#[trigger] spec_tokens_from(
                s,
                i,
            )[k]).variant != TokenModel::End,
{
    lemma_no_eof_in_body(s, i);
}

/// Law: scanning is deterministic and reads nothing but the buffer — any
/// two complete scans of buffers holding the same bytes produce the same
/// token models, element for element.
pub proof fn lemma_scan_deterministic(s: Seq<u8>, r1: Seq<Token>, r2: Seq<Token>)
    requires
        tokens_model(r1) == spec_tokens(s),
        tokens_model(r2) == spec_tokens(s),
    ensures
        tokens_model(r1) == tokens_model(r2),
{
}

/// The models of an optional token.
pub open spec fn opt_tok_model(o: Option<Token>) -> Option<SpecToken> {
    match o {
        Some(t) => Some(t.model()),
        None => None,
    }
}

/// Where a comment skip repositions the cursor, before the default advance
/// of one is applied.
pub open spec fn comment_target(s: Seq<u8>, i: int) -> int {
    if is_block_start(s, i) {
        min(find_close(s, i + 2) + 3, s.len() as int)
    } else {
        min(find_nl(s, i + 1), s.len() as int)
    }
}

proof fn lemma_dot_prefix(t: Seq<u8>, j: int)
    requires
        0 <= j <= t.len(),
    ensures
        dot_count(t.take(j)) <= dot_count(t),
    decreases t.len() - j,
{
    if j == t.len() {
        assert(t.take(j) =~= t);
    } else {
        assert(t.take(j + 1).drop_last() =~= t.take(j));
        lemma_dot_prefix(t, j + 1);
    }
}

/// Relies on `String::push`: appends exactly the given character.
#[verifier::external_body]
fn push_char(s: &mut String, c: char)
    ensures
        final(s)@ == old(s)@.push(c),
{
    s.push(c);
}

/// Builds the string whose characters are the given bytes, read byte by
/// byte as code points.
fn string_of_bytes(v: &[u8]) -> (s: String)
    ensures
        s@ == chars_of(v@),
{
    let mut s = String::new();
    let mut k: usize = 0;
    while k < v.len()
        invariant
            k <= v@.len(),
            s@ == chars_of(v@.take(k as int)),
        decreases v@.len() - k,
    {
        let c = v[k] as char;
        push_char(&mut s, c);
        proof {
            assert(chars_of(v@.take(k + 1)) =~= chars_of(v@.take(k as int)).push(
                v@[k as int] as char,
            ));
        }
        k += 1;
    }
    proof {
        assert(v@.take(v@.len() as int) =~= v@);
    }
    s
}

/// Tests a byte against the whitespace class.
fn space_byte(b: u8) -> (r: bool)
    ensures
        r == is_space(b),
{
    b == 32 || b == 9 || b == 10 || b == 12 || b == 13
}

/// The scanning engine.  It owns the source buffer for the duration of a
/// scan; the cursors are private to one invocation.
pub struct Lexer {
    data: Vec<u8>,
    data_len: usize,
    mainptr: usize,
    peekptr: usize,
    inc_by: usize,
}

impl Lexer {
    /// The bytes of the owned source buffer.
    pub closed spec fn src(self) -> Seq<u8> {
        self.data@
    }

    /// The main cursor: the position whose token is decided next.
    pub closed spec fn cursor(self) -> int {
        self.mainptr as int
    }

    /// The engine's invariant: the recorded length is the buffer's, and the
    /// main cursor never passes the buffer end.
    pub closed spec fn wf(self) -> bool {
        self.data_len == self.data@.len() && self.mainptr <= self.data_len
    }

    /// Takes ownership of the source text; scanning starts at offset zero.
    pub fn new(data: String) -> (r: Self)
        ensures
            r.wf(),
            r.src() == vstd::utf8::encode_utf8(data@),
            r.cursor() == 0,
    {
        let bytes = data.as_str().as_bytes_vec();
        let n = bytes.len();
        Self { data: bytes, data_len: n, mainptr: 0, peekptr: 0, inc_by: 0 }
    }

    /// The byte under the main cursor.
    fn at(&self) -> (b: u8)
        requires
            self.wf(),
            self.mainptr < self.data_len,
        ensures
            b == self.data@[self.mainptr as int],
    {
        self.data[self.mainptr]
    }

    /// The byte under the peek cursor.
    fn peek(&self) -> (b: u8)
        requires
            self.wf(),
            self.peekptr < self.data_len,
        ensures
            b == self.data@[self.peekptr as int],
    {
        self.data[self.peekptr]
    }

    /// The single-byte operator/separator table, keyed by the byte under
    /// the main cursor.
    fn next_singlechar_token(&self, ch: u8) -> (r: Option<Token>)
        ensures
            r is Some <==> single_model(ch) is Some,
            r is Some ==> r->Some_0.model() == (SpecToken {
                variant: single_model(ch)->Some_0,
                pos: self.mainptr as int,
            }),
    {
        if ch == 43 {
            Some(Token::new(TokenVariant::Operator(Operator::Add), self.mainptr))
        } else if ch == 45 {
            Some(Token::new(TokenVariant::Operator(Operator::Sub), self.mainptr))
        } else if ch == 42 {
            Some(Token::new(TokenVariant::Operator(Operator::Mul), self.mainptr))
        } else if ch == 47 {
            Some(Token::new(TokenVariant::Operator(Operator::Div), self.mainptr))
        } else if ch == 37 {
            Some(Token::new(TokenVariant::Operator(Operator::Mod), self.mainptr))
        } else if ch == 61 {
            Some(Token::new(TokenVariant::Operator(Operator::Eq), self.mainptr))
        } else if ch == 62 {
            Some(Token::new(TokenVariant::Operator(Operator::Gt), self.mainptr))
        } else if ch == 60 {
            Some(Token::new(TokenVariant::Operator(Operator::Gt), self.mainptr))
        } else if ch == 40 {
            Some(Token::new(TokenVariant::Separator(Separator::LParen), self.mainptr))
        } else if ch == 41 {
            Some(Token::new(TokenVariant::Separator(Separator::RParen), self.mainptr))
        } else if ch == 91 {
            Some(Token::new(TokenVariant::Separator(Separator::LBracket), self.mainptr))
        } else if ch == 93 {
            Some(Token::new(TokenVariant::Separator(Separator::RBracket), self.mainptr))
        } else if ch == 123 {
            Some(Token::new(TokenVariant::Separator(Separator::LCurly), self.mainptr))
        } else if ch == 125 {
            Some(Token::new(TokenVariant::Separator(Separator::RCurly), self.mainptr))
        } else {
            None
        }
    }

    /// The two-byte operator table, keyed by the byte under the main cursor
    /// and the one after it.
    fn next_doublechar_token(&self, a: u8, b: u8) -> (r: Option<Token>)
        ensures
            r is Some <==> double_model(a, b) is Some,
            r is Some ==> r->Some_0.model() == (SpecToken {
                variant: TokenModel::Op(double_model(a, b)->Some_0),
                pos: self.mainptr as int,
            }),
    {
        if a == 60 && b == 45 {
            Some(Token::new(TokenVariant::Operator(Operator::LAssign), self.mainptr))
        } else if a == 45 && b == 62 {
            Some(Token::new(TokenVariant::Operator(Operator::RAssign), self.mainptr))
        } else if a == 60 && b == 62 {
            Some(Token::new(TokenVariant::Operator(Operator::Neq), self.mainptr))
        } else if a == 60 && b == 60 {
            Some(Token::new(TokenVariant::Operator(Operator::Shl), self.mainptr))
        } else if a == 62 && b == 62 {
            Some(Token::new(TokenVariant::Operator(Operator::Shr), self.mainptr))
        } else if a == 62 && b == 61 {
            Some(Token::new(TokenVariant::Operator(Operator::Geq), self.mainptr))
        } else if a == 60 && b == 61 {
            Some(Token::new(TokenVariant::Operator(Operator::Leq), self.mainptr))
        } else if a == 42 && b == 42 {
            Some(Token::new(TokenVariant::Operator(Operator::Pow), self.mainptr))
        } else if a == 47 && b == 47 {
            Some(Token::new(TokenVariant::Operator(Operator::FloorDiv), self.mainptr))
        } else {
            None
        }
    }

    /// The keyword table, tried on a whole scanned word.
    fn next_keyword_token(&self, w: &[u8]) -> (r: Option<Token>)
        ensures
            r is Some <==> keyword_model(w@) is Some,
            r is Some ==> r->Some_0.model() == (SpecToken {
                variant: TokenModel::Kw(keyword_model(w@)->Some_0),
                pos: self.mainptr as int,
            }),
    {
        let n = w.len();
        if n == 7 && w[0] == 68 && w[1] == 69 && w[2] == 67 && w[3] == 76 && w[4] == 65 && w[5]
            == 82 && w[6] == 69 {
            Some(Token::new(TokenVariant::Keyword(Keyword::Declare), self.mainptr))
        } else if n == 2 && w[0] == 73 && w[1] == 70 {
            Some(Token::new(TokenVariant::Keyword(Keyword::If), self.mainptr))
        } else if n == 4 && w[0] == 69 && w[1] == 76 && w[2] == 83 && w[3] == 69 {
            Some(Token::new(TokenVariant::Keyword(Keyword::Else), self.mainptr))
        } else if n == 5 && w[0] == 69 && w[1] == 78 && w[2] == 68 && w[3] == 73 && w[4] == 70 {
            Some(Token::new(TokenVariant::Keyword(Keyword::Endif), self.mainptr))
        } else if n == 4 && w[0] == 84 && w[1] == 72 && w[2] == 69 && w[3] == 78 {
            Some(Token::new(TokenVariant::Keyword(Keyword::Then), self.mainptr))
        } else if n == 4 && w[0] == 67 && w[1] == 65 && w[2] == 83 && w[3] == 69 {
            Some(Token::new(TokenVariant::Keyword(Keyword::Case), self.mainptr))
        } else if n == 2 && w[0] == 79 && w[1] == 70 {
            Some(Token::new(TokenVariant::Keyword(Keyword::Of), self.mainptr))
        } else if n == 3 && w[0] == 70 && w[1] == 79 && w[2] == 82 {
            Some(Token::new(TokenVariant::Keyword(Keyword::For), self.mainptr))
        } else if n == 4 && w[0] == 78 && w[1] == 69 && w[2] == 88 && w[3] == 84 {
            Some(Token::new(TokenVariant::Keyword(Keyword::Next), self.mainptr))
        } else if n == 2 && w[0] == 84 && w[1] == 79 {
            Some(Token::new(TokenVariant::Keyword(Keyword::To), self.mainptr))
        } else if n == 6 && w[0] == 82 && w[1] == 69 && w[2] == 80 && w[3] == 69 && w[4] == 65
            && w[5] == 84 {
            Some(Token::new(TokenVariant::Keyword(Keyword::Repeat), self.mainptr))
        } else if n == 5 && w[0] == 85 && w[1] == 78 && w[2] == 84 && w[3] == 73 && w[4] == 76 {
            Some(Token::new(TokenVariant::Keyword(Keyword::Until), self.mainptr))
        } else if n == 5 && w[0] == 87 && w[1] == 72 && w[2] == 73 && w[3] == 76 && w[4] == 69 {
            Some(Token::new(TokenVariant::Keyword(Keyword::While), self.mainptr))
        } else if n == 8 && w[0] == 69 && w[1] == 78 && w[2] == 68 && w[3] == 87 && w[4] == 72
            && w[5] == 73 && w[6] == 76 && w[7] == 69 {
            Some(Token::new(TokenVariant::Keyword(Keyword::Endwhile), self.mainptr))
        } else if n == 8 && w[0] == 70 && w[1] == 85 && w[2] == 78 && w[3] == 67 && w[4] == 84
            && w[5] == 73 && w[6] == 79 && w[7] == 78 {
            Some(Token::new(TokenVariant::Keyword(Keyword::Function), self.mainptr))
        } else if n == 11 && w[0] == 69 && w[1] == 78 && w[2] == 68 && w[3] == 70 && w[4] == 85
            && w[5] == 78 && w[6] == 67 && w[7] == 84 && w[8] == 73 && w[9] == 79 && w[10] == 78 {
            Some(Token::new(TokenVariant::Keyword(Keyword::Endfunction), self.mainptr))
        } else if n == 6 && w[0] == 82 && w[1] == 69 && w[2] == 84 && w[3] == 85 && w[4] == 82
            && w[5] == 78 {
            Some(Token::new(TokenVariant::Keyword(Keyword::Return), self.mainptr))
        } else if n == 6 && w[0] == 79 && w[1] == 85 && w[2] == 84 && w[3] == 80 && w[4] == 85
            && w[5] == 84 {
            Some(Token::new(TokenVariant::Keyword(Keyword::Output), self.mainptr))
        } else if n == 5 && w[0] == 73 && w[1] == 78 && w[2] == 80 && w[3] == 85 && w[4] == 84 {
            Some(Token::new(TokenVariant::Keyword(Keyword::Input), self.mainptr))
        } else if n == 4 && w[0] == 67 && w[1] == 65 && w[2] == 76 && w[3] == 76 {
            Some(Token::new(TokenVariant::Keyword(Keyword::Call), self.mainptr))
        } else if n == 4 && w[0] == 84 && w[1] == 82 && w[2] == 85 && w[3] == 69 {
            Some(Token::new(TokenVariant::Keyword(Keyword::True), self.mainptr))
        } else if n == 5 && w[0] == 70 && w[1] == 65 && w[2] == 76 && w[3] == 83 && w[4] == 69 {
            Some(Token::new(TokenVariant::Keyword(Keyword::False), self.mainptr))
        } else {
            None
        }
    }

    /// Literal classification of a scanned word: numeric words (with
    /// separator stripping and the two-decimal-point soft error), string
    /// literals, or nothing.  A malformed or out-of-range integer text is
    /// the scan's one fatal condition and is reported, never swallowed.
    fn next_literal_token(&self, w: &[u8]) -> (r: Result<Option<Token>, LexError>)
        ensures
            r is Ok <==> lit_ok(w@),
            r is Err ==> r->Err_0 == lit_fault(w@),
            r is Ok ==> (r->Ok_0 is Some <==> literal_model(w@) is Some),
            r is Ok && r->Ok_0 is Some ==> r->Ok_0->Some_0.model() == (SpecToken {
                variant: literal_model(w@)->Some_0,
                pos: self.mainptr as int,
            }),
    {
        if w.len() == 0 {
            return Ok(None);
        }
        let c0 = w[0];
        if (48 <= c0 && c0 <= 57) || c0 == 45 {
            let mut cleaned: Vec<u8> = Vec::new();
            let mut seen_dp = false;
            let mut j: usize = 0;
            while j < w.len()
                invariant
                    j <= w@.len(),
                    w@.len() > 0,
                    is_numeric_word(w@),
                    cleaned@ == strip_seps(w@.take(j as int)),
                    seen_dp <==> dot_count(w@.take(j as int)) == 1,
                    0 <= dot_count(w@.take(j as int)) <= 1,
                decreases w@.len() - j,
            {
                let ch = w[j];
                proof {
                    assert(w@.take(j + 1).drop_last() =~= w@.take(j as int));
                    assert(w@.take(j + 1).last() == w@[j as int]);
                }
                if ch == 95 {
                } else if ch == 46 && seen_dp {
                    proof {
                        lemma_dot_prefix(w@, j + 1);
                    }
                    return Ok(Some(Token::new(TokenVariant::Invalid, self.mainptr)));
                } else {
                    if ch == 46 {
                        seen_dp = true;
                    }
                    cleaned.push(ch);
                }
                j += 1;
            }
            proof {
                assert(w@.take(w@.len() as int) =~= w@);
            }
            if seen_dp {
                let txt = string_of_bytes(cleaned.as_slice());
                Ok(
                    Some(
                        Token::new(
                            TokenVariant::Literal(BObject::Float(BFloat::new(txt))),
                            self.mainptr,
                        ),
                    ),
                )
            } else {
                match BInteger::parse_digit_bytes(cleaned.as_slice()) {
                    Ok(b) => Ok(
                        Some(
                            Token::new(
                                TokenVariant::Literal(BObject::Integer(b)),
                                self.mainptr,
                            ),
                        ),
                    ),
                    Err(e) => Err(e),
                }
            }
        } else if c0 == 34 {
            let mut content: Vec<u8> = Vec::new();
            let mut j: usize = 1;
            while j < w.len() && w[j] != 34
                invariant
                    1 <= j <= w@.len(),
                    w@.len() > 0,
                    is_string_word(w@),
                    content@ == w@.subrange(1, j as int),
                    quote_end(w@, 1) == quote_end(w@, j as int),
                decreases w@.len() - j,
            {
                content.push(w[j]);
                proof {
                    assert(w@.subrange(1, j + 1) =~= w@.subrange(1, j as int).push(w@[j as int]));
                }
                j += 1;
            }
            let txt = string_of_bytes(content.as_slice());
            Ok(
                Some(
                    Token::new(
                        TokenVariant::Literal(BObject::String(BString::new(txt))),
                        self.mainptr,
                    ),
                ),
            )
        } else {
            Ok(None)
        }
    }

    /// Scans the maximal run of non-whitespace bytes starting at the main
    /// cursor; the peek cursor is left one past the run's last byte.
    fn next_word(&mut self) -> (w: Vec<u8>)
        requires
            old(self).wf(),
            old(self).mainptr < old(self).data_len,
        ensures
            final(self).wf(),
            final(self).data@ == old(self).data@,
            final(self).data_len == old(self).data_len,
            final(self).mainptr == old(self).mainptr,
            final(self).inc_by == old(self).inc_by,
            final(self).peekptr as int == word_end(old(self).data@, old(self).mainptr as int),
            w@ == word_at(old(self).data@, old(self).mainptr as int),
    {
        let ghost s = self.data@;
        let ghost i = self.mainptr as int;
        let mut w: Vec<u8> = Vec::new();
        self.peekptr = self.mainptr;
        proof {
            assert(s.subrange(i, i) =~= w@);
        }
        while self.peekptr < self.data_len && !(self.data[self.peekptr] == 32 || self.data[self.peekptr]
            == 9 || self.data[self.peekptr] == 10 || self.data[self.peekptr] == 12
            || self.data[self.peekptr] == 13)
            invariant
                self.wf(),
                self.data@ == s,
                self.data_len == old(self).data_len,
                self.mainptr == old(self).mainptr,
                self.inc_by == old(self).inc_by,
                0 <= i <= self.peekptr <= self.data_len,
                w@ == s.subrange(i, self.peekptr as int),
                word_end(s, i) == word_end(s, self.peekptr as int),
            decreases s.len() - self.peekptr,
        {
            let b = self.peek();
            w.push(b);
            proof {
                assert(s.subrange(i, self.peekptr + 1) =~= s.subrange(i, self.peekptr as int).push(
                    s[self.peekptr as int],
                ));
            }
            self.peekptr += 1;
        }
        w
    }

    /// Skips a block comment (to just past its closing delimiter) or a line
    /// comment (to the next line terminator or the buffer end), repositioning
    /// the main cursor; comment bodies are never tokenized.
    fn skip_comments(&mut self) -> (r: bool)
        requires
            old(self).wf(),
            old(self).mainptr < old(self).data_len,
        ensures
            final(self).wf(),
            final(self).data@ == old(self).data@,
            final(self).data_len == old(self).data_len,
            final(self).inc_by == old(self).inc_by,
            r == (is_block_start(old(self).data@, old(self).mainptr as int) || is_line_start(
                old(self).data@,
                old(self).mainptr as int,
            )),
            r ==> final(self).mainptr as int == comment_target(
                old(self).data@,
                old(self).mainptr as int,
            ),
            !r ==> final(self).mainptr == old(self).mainptr,
    {
        let ghost s = self.data@;
        let i = self.mainptr;
        let len = self.data_len;
        if len - i >= 3 && self.data[i] == 59 && self.data[i + 1] == 59 && self.data[i + 2] == 59 {
            self.peekptr = i + 2;
            while self.peekptr < len - 2 && !(self.data[self.peekptr] == 59
                && self.data[self.peekptr + 1] == 59 && self.data[self.peekptr + 2] == 59)
                invariant
                    self.wf(),
                    self.data@ == s,
                    self.data_len == len,
                    self.mainptr == i,
                    self.inc_by == old(self).inc_by,
                    len >= 3,
                    i + 2 <= self.peekptr <= len,
                    find_close(s, i + 2) == find_close(s, self.peekptr as int),
                decreases len - self.peekptr,
            {
                self.peekptr += 1;
            }
            let close = self.peekptr;
            self.mainptr = if close <= len - 3 {
                close + 3
            } else {
                len
            };
            true
        } else if len - i >= 2 && self.data[i] == 59 && self.data[i + 1] == 59 {
            self.peekptr = i + 1;
            while self.peekptr < len && self.data[self.peekptr] != 10
                invariant
                    self.wf(),
                    self.data@ == s,
                    self.data_len == len,
                    self.mainptr == i,
                    self.inc_by == old(self).inc_by,
                    i + 1 <= self.peekptr <= len,
                    find_nl(s, i + 1) == find_nl(s, self.peekptr as int),
                decreases len - self.peekptr,
            {
                self.peekptr += 1;
            }
            self.mainptr = self.peekptr;
            true
        } else {
            false
        }
    }

    /// One decision of the scan: the token the current position emits, if
    /// any, or the fatal literal condition it meets.  On success the next
    /// position is the main cursor plus the advance count, clamped to the
    /// buffer end.
    fn next_token(&mut self) -> (r: Result<Option<Token>, LexError>)
        requires
            old(self).wf(),
            old(self).mainptr < old(self).data_len,
        ensures
            final(self).wf(),
            final(self).data@ == old(self).data@,
            final(self).data_len == old(self).data_len,
            r is Ok <==> step_ok(old(self).data@, old(self).mainptr as int),
            r is Err ==> r->Err_0 == lit_fault(
                word_at(old(self).data@, old(self).mainptr as int),
            ),
            r is Ok ==> opt_tok_model(r->Ok_0) == step_tok(
                old(self).data@,
                old(self).mainptr as int,
            ),
            r is Ok ==> min(
                final(self).mainptr + final(self).inc_by,
                old(self).data@.len() as int,
            ) == step_next(old(self).data@, old(self).mainptr as int),
    {
        let ghost s = self.data@;
        let ghost i0 = self.mainptr as int;
        self.inc_by = 1;
        let b = self.at();
        if space_byte(b) {
            return Ok(None);
        }
        if self.skip_comments() {
            return Ok(None);
        }
        let i = self.mainptr;
        let len = self.data_len;
        let mut to_word = false;
        if len - i >= 2 {
            let nb = self.data[i + 1];
            if let Some(t) = self.next_doublechar_token(b, nb) {
                self.inc_by = 2;
                proof {
                    assert(is_double_at(s, i0));
                    assert(step_next(s, i0) == i0 + 2);
                    assert(min(self.mainptr + self.inc_by, s.len() as int) == i0 + 2);
                }
                return Ok(Some(t));
            }
            if b == 45 && 48 <= nb && nb <= 57 {
                to_word = true;
            }
        }
        if !to_word {
            if let Some(t) = self.next_singlechar_token(b) {
                return Ok(Some(t));
            }
        }
        proof {
            lemma_word_end_bounds(s, i0);
        }
        let w = self.next_word();
        self.inc_by = self.peekptr - self.mainptr;
        proof {
            assert(step_is_word(s, i0));
            assert(step_next(s, i0) == word_end(s, i0));
        }
        if let Some(t) = self.next_keyword_token(w.as_slice()) {
            return Ok(Some(t));
        }
        match self.next_literal_token(w.as_slice()) {
            Ok(Some(t)) => Ok(Some(t)),
            Ok(None) => Ok(
                Some(Token::new(TokenVariant::Ident(string_of_bytes(w.as_slice())), i)),
            ),
            Err(e) => Err(e),
        }
    }

    /// The whole scan: consumes the buffer from the main cursor in one
    /// left-to-right pass and returns the token sequence, closed off by
    /// exactly one end-of-input sentinel (at the offset of the last byte;
    /// at zero for an empty buffer).  An integer literal past the 128-bit
    /// literal space — the scan's one fatal condition — is reported as the
    /// error it is, and the buffer is left intact either way.
    pub fn try_tokenize(&mut self) -> (r: Result<Vec<Token>, LexError>)
        requires
            old(self).wf(),
        ensures
            final(self).wf(),
            final(self).src() == old(self).src(),
            r is Ok <==> scan_ok_from(old(self).src(), old(self).cursor()),
            r is Ok ==> tokens_model(r->Ok_0@) == spec_tokens_from(
                old(self).src(),
                old(self).cursor(),
            ),
            r is Err ==> scan_fault(old(self).src(), old(self).cursor()) == Some(r->Err_0),
    {
        let ghost s = self.data@;
        let ghost c0 = self.mainptr as int;
        let mut res: Vec<Token> = Vec::new();
        proof {
            assert(tokens_model(res@) + tokens_from(s, c0) =~= tokens_from(s, c0));
        }
        while self.mainptr < self.data_len
            invariant
                self.wf(),
                self.data@ == s,
                s == old(self).data@,
                c0 == old(self).mainptr as int,
                tokens_model(res@) + tokens_from(s, self.mainptr as int) == tokens_from(s, c0),
                scan_fault(s, self.mainptr as int) == scan_fault(s, c0),
            decreases s.len() - self.mainptr,
        {
            let ghost i = self.mainptr as int;
            proof {
                lemma_step_next_bounds(s, i);
                assert(step_next_clamped(s, i) == step_next(s, i));
            }
            match self.next_token() {
                Ok(opt) => {
                    let ghost old_res = res@;
                    if let Some(t) = opt {
                        res.push(t);
                        proof {
                            assert(tokens_model(old_res.push(t)) =~= tokens_model(old_res).push(
                                t.model(),
                            ));
                            assert(tokens_model(res@) + tokens_from(s, step_next(s, i))
                                =~= tokens_model(old_res) + tokens_from(s, i));
                        }
                    }
                    self.mainptr = if self.inc_by < self.data_len - self.mainptr {
                        self.mainptr + self.inc_by
                    } else {
                        self.data_len
                    };
                    proof {
                        assert(self.mainptr as int == step_next(s, i));
                    }
                },
                Err(e) => {
                    return Err(e);
                },
            }
        }
        proof {
            assert(tokens_model(res@) + tokens_from(s, self.mainptr as int) =~= tokens_model(
                res@,
            ));
        }
        let pos = if self.data_len == 0 {
            0
        } else {
            self.data_len - 1
        };
        let ghost old_res = res@;
        res.push(Token::new(TokenVariant::Eof, pos));
        proof {
            assert(tokens_model(old_res.push(res@.last())) =~= tokens_model(old_res).push(
                res@.last().model(),
            ));
            assert(tokens_model(res@) =~= spec_tokens_from(s, c0));
        }
        Ok(res)
    }

    /// The whole scan, for buffers the fatal condition cannot touch: total
    /// and terminating on every such buffer, one pass, the exact token
    /// sequence of `spec_tokens_from`.
    pub fn tokenize(&mut self) -> (res: Vec<Token>)
        requires
            old(self).wf(),
            scan_ok_from(old(self).src(), old(self).cursor()),
        ensures
            final(self).wf(),
            final(self).src() == old(self).src(),
            tokens_model(res@) == spec_tokens_from(old(self).src(), old(self).cursor()),
    {
        match self.try_tokenize() {
            Ok(v) => v,
            Err(_) => {
                proof {
                    assert(false);
                }
                Vec::new()
            },
        }
    }
}

} // verus!
