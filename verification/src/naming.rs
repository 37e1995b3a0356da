//! Names in the two styles that tables of packets are written in: the fields
//! of a packet in snake case, the kinds of packet in Pascal case.

use vstd::prelude::*;

verus! {

/// Whether the character is an uppercase letter.
pub uninterp spec fn is_uppercase(c: char) -> bool;

/// The lowercase form of the character: one character or several.
pub uninterp spec fn lowercase_of(c: char) -> Seq<char>;

/// The uppercase form of the character: one character or several.
pub uninterp spec fn uppercase_of(c: char) -> Seq<char>;

/// `char::is_uppercase`: whether the character has the Unicode property
/// `Uppercase`.
#[verifier::external_body]
fn char_is_uppercase(c: char) -> (r: bool)
    ensures
        r == is_uppercase(c),
{
    c.is_uppercase()
}

/// `char::to_lowercase`: the characters of the lowercase mapping of the
/// character, in their order.
#[verifier::external_body]
fn char_to_lowercase(c: char) -> (r: Vec<char>)
    ensures
        r@ == lowercase_of(c),
{
    c.to_lowercase().collect()
}

/// `char::to_uppercase`: the characters of the uppercase mapping of the
/// character, in their order.
#[verifier::external_body]
fn char_to_uppercase(c: char) -> (r: Vec<char>)
    ensures
        r@ == uppercase_of(c),
{
    c.to_uppercase().collect()
}

/// `String::push`: the text with the character behind it.
#[verifier::external_body]
fn push_char(text: &mut String, c: char)
    ensures
        final(text)@ == old(text)@.push(c),
{
    text.push(c)
}

/// What the character at `i` becomes in snake case: an uppercase letter goes
/// to lowercase, behind an underscore where it starts a word, that is, where
/// a character that is no uppercase letter stands before it.
pub open spec fn snake_piece(chars: Seq<char>, i: int) -> Seq<char> {
    if !is_uppercase(chars[i]) {
        seq![chars[i]]
    } else if i > 0 && !is_uppercase(chars[i - 1]) {
        seq!['_'] + lowercase_of(chars[i])
    } else {
        lowercase_of(chars[i])
    }
}

/// The first `n` characters in snake case.
pub open spec fn snake_case(chars: Seq<char>, n: nat) -> Seq<char>
    decreases n,
{
    if n == 0 {
        Seq::empty()
    } else {
        snake_case(chars, (n - 1) as nat) + snake_piece(chars, n - 1)
    }
}

/// What the character at `i` becomes in Pascal case: an underscore goes
/// away, and what stands behind one goes to uppercase.
pub open spec fn pascal_piece(chars: Seq<char>, i: int) -> Seq<char> {
    if chars[i] == '_' {
        Seq::empty()
    } else if i > 0 && chars[i - 1] == '_' {
        uppercase_of(chars[i])
    } else {
        seq![chars[i]]
    }
}

/// The first `n` characters in Pascal case.
pub open spec fn pascal_case(chars: Seq<char>, n: nat) -> Seq<char>
    decreases n,
{
    if n == 0 {
        Seq::empty()
    } else {
        pascal_case(chars, (n - 1) as nat) + pascal_piece(chars, n - 1)
    }
}

fn push_all(text: &mut String, chars: &Vec<char>)
    ensures
        final(text)@ == old(text)@ + chars@,
{
    let mut i: usize = 0;
    while i < chars.len()
        invariant
            i <= chars@.len(),
            text@ == old(text)@ + chars@.take(i as int),
        decreases chars@.len() - i,
    {
        push_char(text, chars[i]);
        i = i + 1;
    }
}

/// The name in snake case: `entityId` becomes `entity_id`.
pub fn to_snake_case(s: &str) -> (r: String)
    ensures
        r@ == snake_case(s@, s@.len()),
{
    let mut result = String::new();
    let mut prev_is_upper = false;
    let mut first = true;
    for ch in it: s.chars()
        invariant
            it.seq() == s@,
            result@ == snake_case(s@, it.index() as nat),
            first == (it.index() == 0),
            prev_is_upper == (it.index() > 0 && is_uppercase(s@[it.index() - 1])),
    {
        if char_is_uppercase(ch) {
            if !first && !prev_is_upper {
                push_char(&mut result, '_');
            }
            let lower = char_to_lowercase(ch);
            push_all(&mut result, &lower);
            prev_is_upper = true;
        } else {
            push_char(&mut result, ch);
            prev_is_upper = false;
        }
        first = false;
    }
    result
}

/// The name in Pascal case: `entity_id` becomes `entityId`, and with an
/// underscore in front, `_entity_id` becomes `EntityId`.
pub fn to_pascal_case(s: &str) -> (r: String)
    ensures
        r@ == pascal_case(s@, s@.len()),
{
    let mut result = String::new();
    let mut prev_is_underscore = false;
    for ch in it: s.chars()
        invariant
            it.seq() == s@,
            result@ == pascal_case(s@, it.index() as nat),
            prev_is_underscore == (it.index() > 0 && s@[it.index() - 1] == '_'),
    {
        if ch == '_' {
            prev_is_underscore = true;
        } else {
            if prev_is_underscore {
                let upper = char_to_uppercase(ch);
                push_all(&mut result, &upper);
            } else {
                push_char(&mut result, ch);
            }
            prev_is_underscore = false;
        }
    }
    result
}

/// A name without uppercase letters is its own snake case.
pub proof fn lemma_snake_case_of_lowercase(chars: Seq<char>, n: nat)
    requires
        n <= chars.len(),
        forall|i: int| 0 <= i < n ==> !is_uppercase(#[trigger] chars[i]),
    ensures
        snake_case(chars, n) == chars.take(n as int),
    decreases n,
{
    if n > 0 {
        lemma_snake_case_of_lowercase(chars, (n - 1) as nat);
        assert(chars.take(n - 1).push(chars[n - 1]) == chars.take(n as int));
    }
}

/// A name without underscores is its own Pascal case.
pub proof fn lemma_pascal_case_without_underscores(chars: Seq<char>, n: nat)
    requires
        n <= chars.len(),
        forall|i: int| 0 <= i < n ==> #[trigger] chars[i] != '_',
    ensures
        pascal_case(chars, n) == chars.take(n as int),
    decreases n,
{
    if n > 0 {
        lemma_pascal_case_without_underscores(chars, (n - 1) as nat);
        assert(chars.take(n - 1).push(chars[n - 1]) == chars.take(n as int));
    }
}

} // verus!
