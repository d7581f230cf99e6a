//! Responses: what the game reveals about one guess.

use vstd::prelude::*;
use vstd::string::*;
use vstd::arithmetic::div_mod::{lemma_div_denominator, lemma_fundamental_div_mod_converse};
use crate::word::WORD_LENGTH;

verus! {

/// Number of distinct responses to a guess: three outcomes at each position.
pub const RESPONSE_COUNT: usize = 243;

/// What the game says about one letter of a guess.
#[derive(Copy, Clone, Debug, PartialEq, Eq, Structural)]
pub enum LetterResponse {
    /// The letter stands at this position of the secret.
    Correct,
    /// The letter occurs in the secret, at another position.
    Misplaced,
    /// The secret has no further occurrence of the letter.
    Absent,
}

impl LetterResponse {
    /// The base-3 digit of an outcome: `Absent` 0, `Misplaced` 1, `Correct` 2.
    pub open spec fn value(self) -> nat {
        match self {
            LetterResponse::Absent => 0,
            LetterResponse::Misplaced => 1,
            LetterResponse::Correct => 2,
        }
    }

    /// The outcome with a given base-3 digit.
    pub open spec fn of_value(d: int) -> LetterResponse {
        if d == 0 {
            LetterResponse::Absent
        } else if d == 1 {
            LetterResponse::Misplaced
        } else {
            LetterResponse::Correct
        }
    }

    /// The outcome at a place of the enumeration `Correct`, `Misplaced`, `Absent`.
    pub open spec fn nth(k: int) -> LetterResponse {
        if k == 0 {
            LetterResponse::Correct
        } else if k == 1 {
            LetterResponse::Misplaced
        } else {
            LetterResponse::Absent
        }
    }

    /// The character that stands for an outcome in a written response:
    /// `.` for `Absent`, `?` for `Misplaced`, `!` for `Correct`.
    pub open spec fn symbol(self) -> char {
        match self {
            LetterResponse::Absent => '.',
            LetterResponse::Misplaced => '?',
            LetterResponse::Correct => '!',
        }
    }

    /// The outcome that a character stands for, if it stands for one.
    pub fn from_symbol(c: char) -> (mark: Option<LetterResponse>)
        ensures
            match mark {
                Some(m) => m.symbol() == c,
                None => c != '.' && c != '?' && c != '!',
            },
    {
        if c == '.' {
            Some(LetterResponse::Absent)
        } else if c == '?' {
            Some(LetterResponse::Misplaced)
        } else if c == '!' {
            Some(LetterResponse::Correct)
        } else {
            None
        }
    }

    /// The base-3 digit of this outcome.
    pub fn digit(self) -> (d: usize)
        ensures
            d == self.value(),
    {
        match self {
            LetterResponse::Absent => 0,
            LetterResponse::Misplaced => 1,
            LetterResponse::Correct => 2,
        }
    }

    /// The three outcomes, in the order `Correct`, `Misplaced`, `Absent`.
    pub fn all_responses() -> (all: Vec<LetterResponse>)
        ensures
            all@.len() == 3,
            forall|k: int| 0 <= k < 3 ==> all@[k] == LetterResponse::nth(k),
    {
        let mut all: Vec<LetterResponse> = Vec::new();
        all.push(LetterResponse::Correct);
        all.push(LetterResponse::Misplaced);
        all.push(LetterResponse::Absent);
        all
    }
}

/// The response to a whole guess: one outcome per position.
#[derive(Copy, Clone, Debug, PartialEq, Eq)]
pub struct WordleResponse(pub [LetterResponse; 5]);

impl View for WordleResponse {
    type V = Seq<LetterResponse>;

    open spec fn view(&self) -> Seq<LetterResponse> {
        self.0@
    }
}

/// A response written out, one character per position.
pub open spec fn symbols(r: Seq<LetterResponse>) -> Seq<char> {
    Seq::new(r.len(), |i: int| r[i].symbol())
}

/// The text is a written response: one of `.`, `?`, `!` for each position of a word.
pub open spec fn is_response_text(text: Seq<char>) -> bool {
    &&& text.len() == WORD_LENGTH
    &&& forall|i: int|
        0 <= i < text.len() ==> (#[trigger] text[i]) == '.' || text[i] == '?' || text[i] == '!'
}

/// Every position is `Correct`.
pub open spec fn all_correct(r: Seq<LetterResponse>) -> bool {
    forall|i: int| 0 <= i < r.len() ==> r[i] == LetterResponse::Correct
}

/// The response as a base-3 number: position `i` contributes its digit times `3^i`.
pub open spec fn encode(r: Seq<LetterResponse>) -> nat {
    r[0].value() + 3 * r[1].value() + 9 * r[2].value() + 27 * r[3].value() + 81 * r[4].value()
}

/// The base-3 digit of `code` that counts the multiples of `3^i`, for `i` up to 4.
#[verifier::opaque]
pub open spec fn base3_digit(code: int, i: int) -> int {
    if i == 0 {
        code % 3
    } else if i == 1 {
        (code / 3) % 3
    } else if i == 2 {
        (code / 9) % 3
    } else if i == 3 {
        (code / 27) % 3
    } else {
        (code / 81) % 3
    }
}

/// The response with a given code.
pub open spec fn decode(code: int) -> Seq<LetterResponse> {
    seq![
        LetterResponse::of_value(base3_digit(code, 0)),
        LetterResponse::of_value(base3_digit(code, 1)),
        LetterResponse::of_value(base3_digit(code, 2)),
        LetterResponse::of_value(base3_digit(code, 3)),
        LetterResponse::of_value(base3_digit(code, 4)),
    ]
}

/// The place of a response in the enumeration of `nth_response`.
#[verifier::opaque]
pub open spec fn place(r: Seq<LetterResponse>) -> int {
    81 * (2 - r[0].value()) + 27 * (2 - r[1].value()) + 9 * (2 - r[2].value()) + 3 * (2
        - r[3].value()) + (2 - r[4].value())
}

/// The response at a place of the lexicographic enumeration in which the
/// first position varies slowest and each position runs through `Correct`,
/// `Misplaced`, `Absent`.
#[verifier::opaque]
pub open spec fn nth_response(k: int) -> Seq<LetterResponse> {
    seq![
        LetterResponse::nth(base3_digit(k, 4)),
        LetterResponse::nth(base3_digit(k, 3)),
        LetterResponse::nth(base3_digit(k, 2)),
        LetterResponse::nth(base3_digit(k, 1)),
        LetterResponse::nth(base3_digit(k, 0)),
    ]
}

/// A number below 243 is the sum of its five base-3 digits, each times its power of 3.
proof fn lemma_base3_split(code: int)
    requires
        0 <= code < RESPONSE_COUNT,
    ensures
        code == base3_digit(code, 0) + 3 * base3_digit(code, 1) + 9 * base3_digit(code, 2) + 27
            * base3_digit(code, 3) + 81 * base3_digit(code, 4),
        forall|i: int| 0 <= #[trigger] base3_digit(code, i) < 3,
{
    reveal(base3_digit);
    lemma_div_denominator(code, 3, 3);
    lemma_div_denominator(code, 9, 3);
    lemma_div_denominator(code, 27, 3);
    let q1 = code / 3;
    let q2 = code / 9;
    let q3 = code / 27;
    let q4 = code / 81;
    assert(code == 3 * q1 + code % 3);
    assert(q1 == 3 * q2 + q1 % 3);
    assert(q2 == 3 * q3 + q2 % 3);
    assert(q3 == 3 * q4 + q3 % 3);
    assert(q4 % 3 == q4);
}

/// Five base-3 digits are the digits of the number they add up to.
proof fn lemma_base3_join(d0: int, d1: int, d2: int, d3: int, d4: int)
    requires
        0 <= d0 < 3,
        0 <= d1 < 3,
        0 <= d2 < 3,
        0 <= d3 < 3,
        0 <= d4 < 3,
    ensures
        ({
            let code = d0 + 3 * d1 + 9 * d2 + 27 * d3 + 81 * d4;
            &&& 0 <= code < RESPONSE_COUNT
            &&& base3_digit(code, 0) == d0
            &&& base3_digit(code, 1) == d1
            &&& base3_digit(code, 2) == d2
            &&& base3_digit(code, 3) == d3
            &&& base3_digit(code, 4) == d4
        }),
{
    reveal(base3_digit);
    let code = d0 + 3 * d1 + 9 * d2 + 27 * d3 + 81 * d4;
    let q1 = d1 + 3 * d2 + 9 * d3 + 27 * d4;
    let q2 = d2 + 3 * d3 + 9 * d4;
    let q3 = d3 + 3 * d4;
    lemma_fundamental_div_mod_converse(code, 3, q1, d0);
    lemma_fundamental_div_mod_converse(code, 9, q2, d0 + 3 * d1);
    lemma_fundamental_div_mod_converse(code, 27, q3, d0 + 3 * d1 + 9 * d2);
    lemma_fundamental_div_mod_converse(code, 81, d4, d0 + 3 * d1 + 9 * d2 + 27 * d3);
    lemma_fundamental_div_mod_converse(q1, 3, q2, d1);
    lemma_fundamental_div_mod_converse(q2, 3, q3, d2);
    lemma_fundamental_div_mod_converse(q3, 3, d4, d3);
    lemma_fundamental_div_mod_converse(d4, 3, 0, d4);
}

/// Decoding undoes encoding, and encoding undoes decoding.
pub proof fn lemma_decode_encode(r: Seq<LetterResponse>, code: int)
    requires
        r.len() == WORD_LENGTH,
        0 <= code < RESPONSE_COUNT,
    ensures
        decode(encode(r) as int) == r,
        decode(code).len() == WORD_LENGTH,
        encode(decode(code)) == code,
{
    lemma_base3_join(
        r[0].value() as int,
        r[1].value() as int,
        r[2].value() as int,
        r[3].value() as int,
        r[4].value() as int,
    );
    assert(decode(encode(r) as int) =~= r);
    lemma_base3_split(code);
}

proof fn lemma_nth_of_place(r: Seq<LetterResponse>)
    requires
        r.len() == WORD_LENGTH,
    ensures
        0 <= place(r) < RESPONSE_COUNT,
        nth_response(place(r)) == r,
{
    reveal(place);
    reveal(nth_response);
    let o0 = 2 - r[0].value();
    let o1 = 2 - r[1].value();
    let o2 = 2 - r[2].value();
    let o3 = 2 - r[3].value();
    let o4 = 2 - r[4].value();
    lemma_base3_join(o4, o3, o2, o1, o0);
    let at = place(r);
    assert(at == o4 + 3 * o3 + 9 * o2 + 27 * o1 + 81 * o0);
    let n = nth_response(at);
    assert(n[0] == LetterResponse::nth(o0) && n[0] == r[0]);
    assert(n[1] == LetterResponse::nth(o1) && n[1] == r[1]);
    assert(n[2] == LetterResponse::nth(o2) && n[2] == r[2]);
    assert(n[3] == LetterResponse::nth(o3) && n[3] == r[3]);
    assert(n[4] == LetterResponse::nth(o4) && n[4] == r[4]);
    assert(n =~= r);
}

proof fn lemma_place_of_nth(k: int)
    requires
        0 <= k < RESPONSE_COUNT,
    ensures
        nth_response(k).len() == WORD_LENGTH,
        place(nth_response(k)) == k,
        all_correct(nth_response(k)) <==> k == 0,
{
    reveal(place);
    reveal(nth_response);
    lemma_base3_split(k);
    let d0 = base3_digit(k, 0);
    let d1 = base3_digit(k, 1);
    let d2 = base3_digit(k, 2);
    let d3 = base3_digit(k, 3);
    let d4 = base3_digit(k, 4);
    assert(0 <= d0 < 3 && 0 <= d1 < 3 && 0 <= d2 < 3 && 0 <= d3 < 3 && 0 <= d4 < 3);
    let n = nth_response(k);
    assert(n[0] == LetterResponse::nth(d4) && n[0].value() == 2 - d4);
    assert(n[1] == LetterResponse::nth(d3) && n[1].value() == 2 - d3);
    assert(n[2] == LetterResponse::nth(d2) && n[2].value() == 2 - d2);
    assert(n[3] == LetterResponse::nth(d1) && n[3].value() == 2 - d1);
    assert(n[4] == LetterResponse::nth(d0) && n[4].value() == 2 - d0);
    assert(place(n) == 81 * d4 + 27 * d3 + 9 * d2 + 3 * d1 + d0);
    if k == 0 {
        assert(d0 == 0 && d1 == 0 && d2 == 0 && d3 == 0 && d4 == 0);
        assert(all_correct(n));
    } else {
        assert(d0 != 0 || d1 != 0 || d2 != 0 || d3 != 0 || d4 != 0);
        assert(n[0] != LetterResponse::Correct || n[1] != LetterResponse::Correct || n[2]
            != LetterResponse::Correct || n[3] != LetterResponse::Correct || n[4]
            != LetterResponse::Correct);
    }
}

/// The enumeration of `nth_response` lists every response once: each
/// response stands at its place, and at no other. The response in which
/// every position is `Correct` comes first.
pub proof fn lemma_nth_response_place(r: Seq<LetterResponse>, k: int)
    requires
        r.len() == WORD_LENGTH,
        0 <= k < RESPONSE_COUNT,
    ensures
        0 <= place(r) < RESPONSE_COUNT,
        nth_response(place(r)) == r,
        nth_response(k).len() == WORD_LENGTH,
        place(nth_response(k)) == k,
        all_correct(nth_response(k)) <==> k == 0,
        place(r) == k <==> r == nth_response(k),
{
    lemma_nth_of_place(r);
    lemma_place_of_nth(k);
}

/// Every code is below `RESPONSE_COUNT`, and only the all-`Correct` response has the top code.
pub proof fn lemma_encode_range(r: Seq<LetterResponse>)
    requires
        r.len() == WORD_LENGTH,
    ensures
        encode(r) < RESPONSE_COUNT,
        encode(r) == RESPONSE_COUNT - 1 <==> all_correct(r),
{
}

impl WordleResponse {
    /// The response in which every position is `Correct`.
    pub fn correct() -> (r: Self)
        ensures
            r@.len() == WORD_LENGTH,
            all_correct(r@),
    {
        WordleResponse([LetterResponse::Correct; 5])
    }

    /// All 243 responses, in the order of `nth_response`.
    pub fn all_responses() -> (all: Vec<Self>)
        ensures
            all@.len() == RESPONSE_COUNT,
            forall|k: int| 0 <= k < RESPONSE_COUNT ==> (#[trigger] all@[k])@ == nth_response(k),
    {
        let outcomes = LetterResponse::all_responses();
        let mut all: Vec<WordleResponse> = Vec::new();
        let mut k: usize = 0;
        while k < RESPONSE_COUNT
            invariant
                0 <= k <= RESPONSE_COUNT,
                all@.len() == k,
                outcomes@.len() == 3,
                forall|d: int| 0 <= d < 3 ==> outcomes@[d] == LetterResponse::nth(d),
                forall|j: int| 0 <= j < k ==> (#[trigger] all@[j])@ == nth_response(j),
            decreases RESPONSE_COUNT - k,
        {
            let r = WordleResponse(
                [
                    outcomes[(k / 81) % 3],
                    outcomes[(k / 27) % 3],
                    outcomes[(k / 9) % 3],
                    outcomes[(k / 3) % 3],
                    outcomes[k % 3],
                ],
            );
            assert(r@ =~= nth_response(k as int)) by {
                reveal(base3_digit);
                reveal(nth_response);
            }
            all.push(r);
            k += 1;
        }
        all
    }

    /// Reads a written response. Any text that is not exactly one of `.`,
    /// `?`, `!` for each position is rejected.
    pub fn from_symbols(text: &str) -> (parsed: Option<Self>)
        ensures
            parsed is Some <==> is_response_text(text@),
            parsed is Some ==> symbols(parsed.unwrap()@) == text@,
    {
        if text.unicode_len() != WORD_LENGTH {
            return None;
        }
        let mut marks = [LetterResponse::Absent; 5];
        let mut i: usize = 0;
        while i < WORD_LENGTH
            invariant
                text@.len() == WORD_LENGTH,
                0 <= i <= WORD_LENGTH,
                forall|j: int| 0 <= j < i ==> (#[trigger] marks@[j]).symbol() == text@[j],
            decreases WORD_LENGTH - i,
        {
            match LetterResponse::from_symbol(text.get_char(i)) {
                Some(mark) => {
                    marks[i] = mark;
                },
                None => {
                    return None;
                },
            }
            i += 1;
        }
        let parsed = WordleResponse(marks);
        proof {
            assert(symbols(parsed@) =~= text@);
            assert forall|j: int| 0 <= j < text@.len() implies (#[trigger] text@[j]) == '.'
                || text@[j] == '?' || text@[j] == '!' by {
                assert(marks@[j].symbol() == text@[j]);
            }
        }
        Some(parsed)
    }

    /// Writes the response out, one character per position.
    pub fn to_symbols(&self) -> (text: String)
        ensures
            text@ == symbols(self@),
    {
        let mut text = String::new();
        let mut i: usize = 0;
        while i < WORD_LENGTH
            invariant
                0 <= i <= WORD_LENGTH,
                text@ == symbols(self@).take(i as int),
            decreases WORD_LENGTH - i,
        {
            let ghost before = text@;
            proof {
                reveal_strlit(".");
                reveal_strlit("?");
                reveal_strlit("!");
            }
            match self.0[i] {
                LetterResponse::Absent => text.append("."),
                LetterResponse::Misplaced => text.append("?"),
                LetterResponse::Correct => text.append("!"),
            }
            proof {
                assert(text@ =~= before.push(self@[i as int].symbol()));
                assert(symbols(self@).take(i + 1) =~= symbols(self@).take(i as int).push(
                    self@[i as int].symbol(),
                ));
            }
            i += 1;
        }
        proof {
            assert(symbols(self@).take(WORD_LENGTH as int) =~= symbols(self@));
        }
        text
    }

    /// The response as a base-3 number below `RESPONSE_COUNT`.
    pub fn bin(&self) -> (b: usize)
        ensures
            b == encode(self@),
            b < RESPONSE_COUNT,
    {
        self.0[0].digit() + 3 * self.0[1].digit() + 9 * self.0[2].digit() + 27 * self.0[3].digit()
            + 81 * self.0[4].digit()
    }

    /// Whether every position is `Correct`.
    pub fn is_correct(&self) -> (r: bool)
        ensures
            r == all_correct(self@),
    {
        self.0[0] == LetterResponse::Correct && self.0[1] == LetterResponse::Correct && self.0[2]
            == LetterResponse::Correct && self.0[3] == LetterResponse::Correct && self.0[4]
            == LetterResponse::Correct
    }

    /// Whether two responses agree at every position.
    pub fn same_as(&self, other: &Self) -> (r: bool)
        ensures
            r == (self@ == other@),
    {
        let r = self.0[0] == other.0[0] && self.0[1] == other.0[1] && self.0[2] == other.0[2]
            && self.0[3] == other.0[3] && self.0[4] == other.0[4];
        proof {
            if r {
                assert(self@ =~= other@);
            }
        }
        r
    }
}

} // verus!
