use vstd::prelude::*;

use crate::gui::error::ParserError;

verus! {

/// A character an operation may hold: a decimal digit, an operator or a parenthesis.
pub open spec fn is_operation_char(c: char) -> bool {
    ('0' <= c && c <= '9') || c == '-' || c == '+' || c == '*' || c == '/' || c == '(' || c == ')'
}

/// The first character of `s` that an operation may not hold, if there is one.
pub open spec fn first_bad_char(s: Seq<char>) -> Option<char>
    decreases s.len(),
{
    if s.len() == 0 {
        None
    } else {
        match first_bad_char(s.drop_last()) {
            Some(c) => Some(c),
            None => if is_operation_char(s.last()) {
                None
            } else {
                Some(s.last())
            },
        }
    }
}

proof fn lemma_first_bad_char_of_prefix(s: Seq<char>, k: int)
    requires
        0 <= k <= s.len(),
        first_bad_char(s.take(k)) is Some,
    ensures
        first_bad_char(s) == first_bad_char(s.take(k)),
    decreases s.len(),
{
    if k < s.len() {
        assert(s.drop_last().take(k) =~= s.take(k));
        lemma_first_bad_char_of_prefix(s.drop_last(), k);
    } else {
        assert(s.take(k) =~= s);
    }
}

proof fn lemma_no_bad_char(s: Seq<char>)
    ensures
        first_bad_char(s) is None <==> forall|i: int| 0 <= i < s.len() ==> is_operation_char(#[trigger] s[i]),
        first_bad_char(s) matches Some(c) ==> exists|i: int|
            0 <= i < s.len() && #[trigger] s[i] == c && !is_operation_char(c) && forall|j: int|
                0 <= j < i ==> is_operation_char(#[trigger] s[j]),
    decreases s.len(),
{
    if s.len() > 0 {
        let init = s.drop_last();
        lemma_no_bad_char(init);
        if first_bad_char(init) is None {
            assert(forall|i: int| 0 <= i < init.len() ==> is_operation_char(#[trigger] s[i]) == is_operation_char(init[i]));
            if !is_operation_char(s.last()) {
                assert(s[s.len() - 1] == s.last());
            }
        } else {
            let c = first_bad_char(init)->0;
            let i = choose|i: int|
                0 <= i < init.len() && #[trigger] init[i] == c && !is_operation_char(c) && forall|j: int|
                    0 <= j < i ==> is_operation_char(#[trigger] init[j]);
            assert(s[i] == c);
            assert(forall|j: int| 0 <= j < i ==> #[trigger] s[j] == init[j]);
        }
    }
}

/// An operation is accepted exactly when it is nonempty, holds nothing but the
/// decimal digits '0' to '9', the operators '+', '-', '*', '/' and parentheses,
/// and opens as many parentheses as it closes. A refusal for a bad character
/// names the first character that is none of these.
pub proof fn law_accepted_operations(s: Seq<char>)
    ensures
        operation_verdict(s) is Ok <==> {
            &&& s.len() > 0
            &&& forall|i: int|
                0 <= i < s.len() ==> {
                    let c = #[trigger] s[i];
                    ('0' <= c && c <= '9') || c == '+' || c == '-' || c == '*' || c == '/' || c == '('
                        || c == ')'
                }
            &&& occurrences(s, '(') == occurrences(s, ')')
        },
        s.len() > 0 && first_bad_char(s) is Some ==> exists|i: int|
            0 <= i < s.len() && operation_verdict(s) == Err::<(), Seq<char>>(
                "Bad character "@ + seq![#[trigger] s[i]],
            ) && !(('0' <= s[i] && s[i] <= '9') || s[i] == '+' || s[i] == '-' || s[i] == '*' || s[i]
                == '/' || s[i] == '(' || s[i] == ')') && forall|j: int|
                0 <= j < i ==> is_operation_char(#[trigger] s[j]),
{
    lemma_no_bad_char(s);
}

/// How many times `c` occurs in `s`.
pub open spec fn occurrences(s: Seq<char>, c: char) -> nat
    decreases s.len(),
{
    if s.len() == 0 {
        0
    } else {
        occurrences(s.drop_last(), c) + if s.last() == c {
            1nat
        } else {
            0nat
        }
    }
}

/// The verdict on an operation: accepted, or refused with the reason. An empty
/// operation is refused; so is one that holds a character other than a digit, an
/// operator or a parenthesis (the first such character is named); so is one that
/// opens a different number of parentheses than it closes.
pub open spec fn operation_verdict(s: Seq<char>) -> Result<(), Seq<char>> {
    if s.len() == 0 {
        Err("Expected an operation, got empty string"@)
    } else if let Some(c) = first_bad_char(s) {
        Err("Bad character "@ + seq![c])
    } else if occurrences(s, '(') != occurrences(s, ')') {
        Err("Parenthesis opened but not closed (or vice versa)"@)
    } else {
        Ok(())
    }
}

/// Checks an operation before it is sent to the calculator.
pub fn parse(operation: &str) -> (r: Result<(), ParserError>)
    ensures
        match operation_verdict(operation@) {
            Ok(()) => r is Ok,
            Err(message) => r matches Err(e) && e.0@ == message,
        },
{
    if operation.is_empty() {
        return Err(ParserError(String::from_str("Expected an operation, got empty string")));
    }
    let n = operation.unicode_len();
    let mut opened: usize = 0;
    let mut closed: usize = 0;
    let mut i: usize = 0;
    for character in it: operation.chars()
        invariant
            n == operation@.len(),
            i == it.index(),
            it.seq() == operation@,
            opened == occurrences(operation@.take(it.index() as int), '('),
            closed == occurrences(operation@.take(it.index() as int), ')'),
            opened <= it.index(),
            closed <= it.index(),
            first_bad_char(operation@.take(it.index() as int)) is None,
    {
        assert(operation@.take(i + 1).drop_last() =~= operation@.take(i as int));
        if !is_operation_character(character) {
            proof {
                lemma_first_bad_char_of_prefix(operation@, i + 1);
            }
            let bad = operation.substring_char(i, i + 1);
            assert(bad@ =~= seq![character]);
            return Err(ParserError(String::from_str("Bad character ").concat(bad)));
        }
        if character == '(' {
            opened += 1;
        } else if character == ')' {
            closed += 1;
        }
        i += 1;
    }
    assert(operation@.take(operation@.len() as int) =~= operation@);
    if opened != closed {
        return Err(ParserError(String::from_str("Parenthesis opened but not closed (or vice versa)")));
    }
    Ok(())
}

fn is_operation_character(c: char) -> (r: bool)
    ensures
        r == is_operation_char(c),
{
    ('0' <= c && c <= '9') || c == '-' || c == '+' || c == '*' || c == '/' || c == '(' || c == ')'
}

} // verus!
