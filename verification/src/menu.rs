//! What the user's input means: the commands of each menu, read from a line
//! of text, and what a command does to the configuration.

use crate::nvcap::{Head, NVCAP};
use vstd::prelude::*;
use vstd::slice::slice_subrange;
use vstd::utf8::encode_utf8;

verus! {

/// The value of a byte as a digit, decimal or hexadecimal, or `None` where
/// it is no digit.
pub open spec fn digit_of(byte: u8, hex: bool) -> Option<nat> {
    if 0x30 <= byte <= 0x39 {
        Some((byte - 0x30) as nat)
    } else if hex && 0x61 <= byte <= 0x66 {
        Some((byte - 0x61 + 10) as nat)
    } else if hex && 0x41 <= byte <= 0x46 {
        Some((byte - 0x41 + 10) as nat)
    } else {
        None
    }
}

/// The base of the numbers: 16 or 10.
pub open spec fn radix_of(hex: bool) -> nat {
    if hex {
        16
    } else {
        10
    }
}

/// Whether every byte is a digit.
pub open spec fn all_digits(digits: Seq<u8>, hex: bool) -> bool {
    forall|i: int| 0 <= i < digits.len() ==> (#[trigger] digit_of(digits[i], hex)) is Some
}

/// The number that a sequence of digits stands for, the first digit
/// weighing most.
pub open spec fn digits_value(digits: Seq<u8>, hex: bool) -> nat
    decreases digits.len(),
{
    if digits.len() == 0 {
        0
    } else {
        digits_value(digits.drop_last(), hex) * radix_of(hex) + digit_of(digits.last(), hex)->0
    }
}

/// The digits of a number's text: the text without a plus sign in front.
pub open spec fn unsigned_part(text: Seq<u8>) -> Seq<u8> {
    if text.len() > 0 && text[0] == 0x2b {
        text.drop_first()
    } else {
        text
    }
}

/// The number that a text stands for: an optional plus sign, then one or
/// more digits and nothing else, with a value of at most `max`.
pub open spec fn number_of(text: Seq<u8>, hex: bool, max: nat) -> Option<nat> {
    let digits = unsigned_part(text);
    if digits.len() == 0 || !all_digits(digits, hex) || digits_value(digits, hex) > max {
        None
    } else {
        Some(digits_value(digits, hex))
    }
}

/// A number with more digits is no smaller than the number of its first
/// digits.
proof fn lemma_digits_value_grows(digits: Seq<u8>, hex: bool, n: int)
    requires
        0 <= n <= digits.len(),
    ensures
        digits_value(digits.take(n), hex) <= digits_value(digits, hex),
    decreases digits.len(),
{
    if n == digits.len() {
        assert(digits.take(n) =~= digits);
    } else {
        let shorter = digits.drop_last();
        assert(shorter.take(n) =~= digits.take(n));
        lemma_digits_value_grows(shorter, hex, n);
        assert(digits_value(shorter, hex) * radix_of(hex) >= digits_value(shorter, hex))
            by (nonlinear_arith)
            requires
                radix_of(hex) >= 1,
        ;
    }
}

fn digit_value(byte: u8, hex: bool) -> (digit: Option<u64>)
    ensures
        digit is Some == digit_of(byte, hex) is Some,
        digit matches Some(d) ==> d == digit_of(byte, hex)->0 && d < radix_of(hex),
{
    if 0x30 <= byte && byte <= 0x39 {
        Some((byte - 0x30) as u64)
    } else if hex && 0x61 <= byte && byte <= 0x66 {
        Some((byte - 0x61 + 10) as u64)
    } else if hex && 0x41 <= byte && byte <= 0x46 {
        Some((byte - 0x41 + 10) as u64)
    } else {
        None
    }
}

/// Reads a number, decimal or hexadecimal, that is at most `max`.
pub fn parse_number(text: &[u8], hex: bool, max: u64) -> (number: Option<u64>)
    ensures
        number is Some == number_of(text@, hex, max as nat) is Some,
        number matches Some(n) ==> n == number_of(text@, hex, max as nat)->0,
{
    let start: usize = if text.len() > 0 && text[0] == 0x2b {
        1
    } else {
        0
    };
    let ghost digits = unsigned_part(text@);
    assert(digits =~= text@.subrange(start as int, text@.len() as int));
    if start == text.len() {
        return None;
    }
    let radix: u64 = if hex {
        16
    } else {
        10
    };
    let mut value: u64 = 0;
    let mut i: usize = start;
    while i < text.len()
        invariant
            start <= i <= text.len(),
            digits == unsigned_part(text@),
            digits == text@.subrange(start as int, text@.len() as int),
            radix == radix_of(hex),
            all_digits(digits.take(i - start), hex),
            value == digits_value(digits.take(i - start), hex),
            value <= max,
        decreases text.len() - i,
    {
        let ghost seen = digits.take(i - start);
        let ghost next = digits.take(i - start + 1);
        let digit: u64 = match digit_value(text[i], hex) {
            Some(digit) => digit,
            None => {
                assert(digit_of(digits[i - start], hex) is None);
                return None;
            },
        };
        proof {
            assert(next.drop_last() =~= seen);
            assert(next.last() == text@[i as int]);
            assert(digits_value(next, hex) == value * radix + digit);
            assert forall|k: int| 0 <= k < next.len() implies (#[trigger] digit_of(next[k], hex))
                is Some by {
                if k < seen.len() {
                    assert(seen[k] == next[k]);
                }
            }
        }
        if digit > max || value > (max - digit) / radix {
            proof {
                assert(value * radix + digit > max) by (nonlinear_arith)
                    requires
                        digit > max || value > (max - digit) / (radix as int),
                        radix > 0,
                        value >= 0,
                        digit >= 0,
                ;
                lemma_digits_value_grows(digits, hex, i - start + 1);
            }
            return None;
        }
        assert(value * radix + digit <= max) by (nonlinear_arith)
            requires
                value <= (max - digit) / (radix as int),
                radix > 0,
                digit <= max,
        ;
        value = value * radix + digit;
        i += 1;
    }
    assert(digits.take(i - start) =~= digits);
    Some(value)
}

/// The number that a text stands for, or 0 where it stands for none.
pub open spec fn number_or_zero(text: Seq<u8>, max: nat) -> nat {
    match number_of(text, false, max) {
        Some(n) => n,
        None => 0,
    }
}

/// The byte of the letter `c`.
pub const LETTER_C: u8 = 0x63;

/// The byte of the letter `q`.
pub const LETTER_Q: u8 = 0x71;

/// The byte of the letter `t`.
pub const LETTER_T: u8 = 0x74;

/// The byte of the letter `v`.
pub const LETTER_V: u8 = 0x76;

/// The byte of the letter `x`.
pub const LETTER_X: u8 = 0x78;

/// The byte of the digit `0`.
pub const DIGIT_0: u8 = 0x30;

/// The byte of a space.
pub const SPACE: u8 = 0x20;

fn is_letter(text: &[u8], letter: u8) -> (same: bool)
    ensures
        same == (text@ == seq![letter]),
{
    let same = text.len() == 1 && text[0] == letter;
    assert(same ==> text@ =~= seq![letter]);
    assert(text@ == seq![letter] ==> text@.len() == 1 && text@[0] == letter);
    same
}

/// What the user asks for in the main menu.
#[derive(Debug, Clone, Copy, PartialEq, Eq, Structural)]
pub enum MainChoice {
    /// Show the entries of the DCB table.
    ShowEntries,
    /// Go to the NVCAP menu.
    Nvcap,
    /// Leave the program.
    Quit,
    /// Anything else: show the menu again.
    Nothing,
}

/// What a line of the main menu asks for: `1` shows the entries, `2` goes
/// to the NVCAP menu, and any other line that starts with `q` quits.
pub open spec fn main_choice_of(text: Seq<u8>) -> MainChoice {
    let option = number_or_zero(text, u32::MAX as nat);
    if option == 1 {
        MainChoice::ShowEntries
    } else if option == 2 {
        MainChoice::Nvcap
    } else if text.len() > 0 && text[0] == LETTER_Q {
        MainChoice::Quit
    } else {
        MainChoice::Nothing
    }
}

fn option_number(text: &[u8]) -> (option: u64)
    ensures
        option == number_or_zero(text@, u32::MAX as nat),
{
    match parse_number(text, false, 0xffff_ffff) {
        Some(n) => n,
        None => 0,
    }
}

/// Reads a line of the main menu, with the white space around it removed.
pub fn main_choice(text: &[u8]) -> (choice: MainChoice)
    ensures
        choice == main_choice_of(text@),
{
    let option = option_number(text);
    if option == 1 {
        MainChoice::ShowEntries
    } else if option == 2 {
        MainChoice::Nvcap
    } else if text.len() > 0 && text[0] == LETTER_Q {
        MainChoice::Quit
    } else {
        MainChoice::Nothing
    }
}

/// What the user asks for in the NVCAP menu.
#[derive(Debug, Clone, Copy, PartialEq, Eq, Structural)]
pub enum NvcapChoice {
    /// Add displays to heads or remove them.
    ChooseHeads,
    ToggleMobile,
    ChooseVersion,
    ToggleComposite,
    ToggleScriptBasedPower,
    ChooseFieldF,
    /// Print the NVCAP value.
    Create,
    /// Go back to the main menu.
    Back,
    /// Anything else: show the menu again.
    Nothing,
}

/// What a line of the NVCAP menu asks for: one of the options `1` to `6`,
/// `c` to print the value, or `q` to go back.
pub open spec fn nvcap_choice_of(text: Seq<u8>) -> NvcapChoice {
    let option = number_or_zero(text, u32::MAX as nat);
    if option == 1 {
        NvcapChoice::ChooseHeads
    } else if option == 2 {
        NvcapChoice::ToggleMobile
    } else if option == 3 {
        NvcapChoice::ChooseVersion
    } else if option == 4 {
        NvcapChoice::ToggleComposite
    } else if option == 5 {
        NvcapChoice::ToggleScriptBasedPower
    } else if option == 6 {
        NvcapChoice::ChooseFieldF
    } else if text == seq![LETTER_C] {
        NvcapChoice::Create
    } else if text == seq![LETTER_Q] {
        NvcapChoice::Back
    } else {
        NvcapChoice::Nothing
    }
}

/// Reads a line of the NVCAP menu, trimmed and in lower case.
pub fn nvcap_choice(text: &[u8]) -> (choice: NvcapChoice)
    ensures
        choice == nvcap_choice_of(text@),
{
    let option = option_number(text);
    if option == 1 {
        NvcapChoice::ChooseHeads
    } else if option == 2 {
        NvcapChoice::ToggleMobile
    } else if option == 3 {
        NvcapChoice::ChooseVersion
    } else if option == 4 {
        NvcapChoice::ToggleComposite
    } else if option == 5 {
        NvcapChoice::ToggleScriptBasedPower
    } else if option == 6 {
        NvcapChoice::ChooseFieldF
    } else if is_letter(text, LETTER_C) {
        NvcapChoice::Create
    } else if is_letter(text, LETTER_Q) {
        NvcapChoice::Back
    } else {
        NvcapChoice::Nothing
    }
}

/// The configuration after a choice of the NVCAP menu: each of the three
/// toggles turns its flag over, and no other choice changes anything.
pub open spec fn nvcap_after(nvcap: NVCAP, choice: NvcapChoice) -> NVCAP {
    match choice {
        NvcapChoice::ToggleMobile => NVCAP { is_mobile: !nvcap.is_mobile, ..nvcap },
        NvcapChoice::ToggleComposite => NVCAP { is_composite: !nvcap.is_composite, ..nvcap },
        NvcapChoice::ToggleScriptBasedPower => NVCAP {
            script_based_power_and_backlight: !nvcap.script_based_power_and_backlight,
            ..nvcap
        },
        _ => nvcap,
    }
}

/// Carries out what a choice of the NVCAP menu does to the configuration.
pub fn apply_nvcap_choice(nvcap: &mut NVCAP, choice: NvcapChoice)
    ensures
        *final(nvcap) == nvcap_after(*old(nvcap), choice),
{
    match choice {
        NvcapChoice::ToggleMobile => {
            nvcap.is_mobile = !nvcap.is_mobile;
        },
        NvcapChoice::ToggleComposite => {
            nvcap.is_composite = !nvcap.is_composite;
        },
        NvcapChoice::ToggleScriptBasedPower => {
            nvcap.script_based_power_and_backlight = !nvcap.script_based_power_and_backlight;
        },
        _ => {},
    }
}

/// What the user asks for where displays are put on heads.
#[derive(Debug, Clone, Copy, PartialEq, Eq, Structural)]
pub enum HeadCommand {
    /// Go back to the NVCAP menu.
    Back,
    /// Toggle the display with this number, counted from 1, on this head.
    Toggle { number: usize, head: Head },
    /// Anything else: ask again.
    Invalid,
}

/// Whether the text has a space at `at` and no other space.
pub open spec fn splits_at(text: Seq<u8>, at: int) -> bool {
    &&& 0 <= at < text.len()
    &&& text[at] == SPACE
    &&& forall|k: int| 0 <= k < text.len() && k != at ==> text[k] != SPACE
}

/// The two words of a text that holds exactly one space: what stands
/// before the space and what stands after it.
pub open spec fn two_words(text: Seq<u8>) -> Option<(Seq<u8>, Seq<u8>)> {
    if exists|at: int| splits_at(text, at) {
        let at = choose|at: int| splits_at(text, at);
        Some((text.take(at), text.skip(at + 1)))
    } else {
        None
    }
}

/// The head that a word names: `1` and `2` name the two heads, as numbers,
/// and `tv` names the composite head.
pub open spec fn head_of(word: Seq<u8>) -> Option<Head> {
    let number = number_or_zero(word, usize::MAX as nat);
    if number == 1 {
        Some(Head::Head0)
    } else if number == 2 {
        Some(Head::Head1)
    } else if word == seq![LETTER_T, LETTER_V] {
        Some(Head::TV)
    } else {
        None
    }
}

/// What a line asks for where displays are put on heads: `q` goes back; a
/// display number, one space and a head toggle that display on that head.
pub open spec fn head_command_of(text: Seq<u8>) -> HeadCommand {
    if text == seq![LETTER_Q] {
        HeadCommand::Back
    } else {
        match two_words(text) {
            None => HeadCommand::Invalid,
            Some((display, head)) => match (
                number_of(display, false, usize::MAX as nat),
                head_of(head),
            ) {
                (Some(number), Some(head)) => HeadCommand::Toggle { number: number as usize, head },
                _ => HeadCommand::Invalid,
            },
        }
    }
}

fn find_space(text: &[u8], from: usize) -> (at: usize)
    requires
        from <= text.len(),
    ensures
        from <= at <= text.len(),
        forall|k: int| from <= k < at ==> text@[k] != SPACE,
        at < text.len() ==> text@[at as int] == SPACE,
{
    let mut at: usize = from;
    while at < text.len()
        invariant
            from <= at <= text.len(),
            forall|k: int| from <= k < at ==> text@[k] != SPACE,
        decreases text.len() - at,
    {
        if text[at] == SPACE {
            return at;
        }
        at += 1;
    }
    at
}

fn parse_head(word: &[u8]) -> (head: Option<Head>)
    ensures
        head == head_of(word@),
{
    let number: u64 = match parse_number(word, false, usize::MAX as u64) {
        Some(n) => n,
        None => 0,
    };
    if number == 1 {
        Some(Head::Head0)
    } else if number == 2 {
        Some(Head::Head1)
    } else if word.len() == 2 && word[0] == LETTER_T && word[1] == LETTER_V {
        assert(word@ =~= seq![LETTER_T, LETTER_V]);
        Some(Head::TV)
    } else {
        assert(word@ == seq![LETTER_T, LETTER_V] ==> word@.len() == 2 && word@[0] == LETTER_T
            && word@[1] == LETTER_V);
        None
    }
}

/// Reads a line where displays are put on heads, trimmed and in lower case.
pub fn head_command(text: &[u8]) -> (command: HeadCommand)
    ensures
        command == head_command_of(text@),
{
    if is_letter(text, LETTER_Q) {
        return HeadCommand::Back;
    }
    let at = find_space(text, 0);
    if at == text.len() {
        assert(forall|p: int| !splits_at(text@, p));
        return HeadCommand::Invalid;
    }
    let second = find_space(text, at + 1);
    if second < text.len() {
        assert forall|p: int| !splits_at(text@, p) by {
            if p == at {
                assert(text@[second as int] == SPACE);
            } else {
                assert(text@[at as int] == SPACE);
            }
        }
        return HeadCommand::Invalid;
    }
    proof {
        assert(splits_at(text@, at as int));
        assert forall|p: int| splits_at(text@, p) implies p == at by {}
    }
    let display = slice_subrange(text, 0, at);
    let head = slice_subrange(text, at + 1, text.len());
    assert(display@ =~= text@.take(at as int));
    assert(head@ =~= text@.skip(at as int + 1));
    let number = match parse_number(display, false, usize::MAX as u64) {
        Some(n) => n,
        None => {
            return HeadCommand::Invalid;
        },
    };
    match parse_head(head) {
        Some(head) => HeadCommand::Toggle { number: number as usize, head },
        None => HeadCommand::Invalid,
    }
}

/// What the user asks for where a byte of the configuration is entered.
#[derive(Debug, Clone, Copy, PartialEq, Eq, Structural)]
pub enum ValueCommand {
    /// Go back to the NVCAP menu and keep the old value.
    Back,
    /// Take this value.
    Take(u8),
    /// Anything else: ask again.
    Invalid,
}

/// Where the hexadecimal digits of a text start: after every `0x` that
/// stands in front, one after the other.
pub open spec fn hex_start(text: Seq<u8>, from: int) -> int
    decreases text.len() - from,
{
    if 0 <= from && from + 2 <= text.len() && text[from] == DIGIT_0 && text[from + 1] == LETTER_X {
        hex_start(text, from + 2)
    } else {
        from
    }
}

/// What a line asks for where a byte is entered: `q` goes back; a
/// hexadecimal number of at most `0xff`, with or without `0x` in front, is
/// the new value.
pub open spec fn value_command_of(text: Seq<u8>) -> ValueCommand {
    if text == seq![LETTER_Q] {
        ValueCommand::Back
    } else {
        match number_of(text.skip(hex_start(text, 0)), true, u8::MAX as nat) {
            Some(value) => ValueCommand::Take(value as u8),
            None => ValueCommand::Invalid,
        }
    }
}

/// The byte of the configuration that the user enters a value for.
#[derive(Debug, Clone, Copy, PartialEq, Eq, Structural)]
pub enum ValueField {
    Version,
    FieldF,
}

/// The configuration after a command where a byte is entered: a value
/// given is stored in the field asked for, and nothing else changes.
pub open spec fn value_after(nvcap: NVCAP, field: ValueField, command: ValueCommand) -> NVCAP {
    match (command, field) {
        (ValueCommand::Take(value), ValueField::Version) => NVCAP { version: value, ..nvcap },
        (ValueCommand::Take(value), ValueField::FieldF) => NVCAP { field_f: value, ..nvcap },
        _ => nvcap,
    }
}

/// Carries out a command where a byte is entered. The result says whether
/// the question is settled: it is not where the line asked for nothing, and
/// the user is then asked again.
pub fn apply_value_command(nvcap: &mut NVCAP, field: ValueField, command: ValueCommand) -> (settled:
    bool)
    ensures
        *final(nvcap) == value_after(*old(nvcap), field, command),
        settled == (command != ValueCommand::Invalid),
{
    match command {
        ValueCommand::Take(value) => {
            match field {
                ValueField::Version => {
                    nvcap.version = value;
                },
                ValueField::FieldF => {
                    nvcap.field_f = value;
                },
            }
            true
        },
        ValueCommand::Back => true,
        ValueCommand::Invalid => false,
    }
}

/// Reads a line where a byte is entered, trimmed and in lower case.
pub fn value_command(text: &[u8]) -> (command: ValueCommand)
    ensures
        command == value_command_of(text@),
{
    if is_letter(text, LETTER_Q) {
        return ValueCommand::Back;
    }
    let mut start: usize = 0;
    while text.len() - start >= 2 && text[start] == DIGIT_0 && text[start + 1] == LETTER_X
        invariant
            start <= text.len(),
            hex_start(text@, start as int) == hex_start(text@, 0),
        decreases text.len() - start,
    {
        start += 2;
    }
    let digits = slice_subrange(text, start, text.len());
    assert(digits@ =~= text@.skip(start as int));
    match parse_number(digits, true, 0xff) {
        Some(value) => ValueCommand::Take(value as u8),
        None => ValueCommand::Invalid,
    }
}

/// Whether a character is white space: one of the characters with the
/// Unicode property `White_Space`.
pub open spec fn is_white_space(c: char) -> bool {
    let code = c as u32;
    ||| 0x09 <= code <= 0x0d
    ||| code == 0x20
    ||| code == 0x85
    ||| code == 0xa0
    ||| code == 0x1680
    ||| 0x2000 <= code <= 0x200a
    ||| code == 0x2028
    ||| code == 0x2029
    ||| code == 0x202f
    ||| code == 0x205f
    ||| code == 0x3000
}

/// A text without the white space at its start.
pub open spec fn start_trimmed(text: Seq<char>) -> Seq<char>
    decreases text.len(),
{
    if text.len() > 0 && is_white_space(text[0]) {
        start_trimmed(text.drop_first())
    } else {
        text
    }
}

/// A text without the white space at its end.
pub open spec fn end_trimmed(text: Seq<char>) -> Seq<char>
    decreases text.len(),
{
    if text.len() > 0 && is_white_space(text.last()) {
        end_trimmed(text.drop_last())
    } else {
        text
    }
}

/// A text without the white space at its start and at its end.
pub open spec fn trimmed(text: Seq<char>) -> Seq<char> {
    end_trimmed(start_trimmed(text))
}

/// A text in lower case, as `str::to_lowercase` returns it.
pub uninterp spec fn lowercased(text: Seq<char>) -> Seq<char>;

/// The test whether a character is no double quote.
pub open spec fn not_a_quote() -> spec_fn(char) -> bool {
    |c: char| c != '"'
}

/// A text without its double quotes.
pub open spec fn without_quotes(text: Seq<char>) -> Seq<char> {
    text.filter(not_a_quote())
}

/// Calls `str::trim`, which removes the white space, as Unicode defines it,
/// at both ends of a text. Taken on trust: the result is the text from its
/// first character that is no white space to its last, and empty where the
/// text holds nothing else.
#[verifier::external_body]
fn trim_text(text: &str) -> (out: &str)
    ensures
        out@ == trimmed(text@),
{
    text.trim()
}

/// Calls `str::trim_end`, which removes the white space, as Unicode defines
/// it, at the end of a text. Taken on trust: the result is the text up to
/// its last character that is no white space.
#[verifier::external_body]
fn trim_end_text(text: &str) -> (out: &str)
    ensures
        out@ == end_trimmed(text@),
{
    text.trim_end()
}

/// Calls `str::to_lowercase`, which maps a text to lower case by the rules
/// of Unicode. Taken on trust: the result is the one that [`lowercased`]
/// names, a function of the text alone.
#[verifier::external_body]
fn lowercase_text(text: &str) -> (out: String)
    ensures
        out@ == lowercased(text@),
{
    text.to_lowercase()
}

/// Calls `str::replace` to replace each double quote by the empty text.
/// Taken on trust: the result holds the characters of the text that are no
/// double quotes, in their order.
#[verifier::external_body]
fn strip_quotes(text: &str) -> (out: String)
    ensures
        out@ == without_quotes(text@),
{
    text.replace("\"", "")
}

/// The bytes of a line as the main menu reads them: trimmed.
pub open spec fn main_menu_text(line: Seq<char>) -> Seq<u8> {
    encode_utf8(trimmed(line))
}

/// The bytes of a line as the other menus read them: trimmed, then put in
/// lower case.
pub open spec fn menu_text(line: Seq<char>) -> Seq<u8> {
    encode_utf8(lowercased(trimmed(line)))
}

/// Reads what the user typed in the main menu.
pub fn read_main_choice(line: &str) -> (choice: MainChoice)
    ensures
        choice == main_choice_of(main_menu_text(line@)),
{
    main_choice(trim_text(line).as_bytes())
}

/// Reads what the user typed in the NVCAP menu.
pub fn read_nvcap_choice(line: &str) -> (choice: NvcapChoice)
    ensures
        choice == nvcap_choice_of(menu_text(line@)),
{
    let text = lowercase_text(trim_text(line));
    nvcap_choice(text.as_str().as_bytes())
}

/// Reads what the user typed where displays are put on heads.
pub fn read_head_command(line: &str) -> (command: HeadCommand)
    ensures
        command == head_command_of(menu_text(line@)),
{
    let text = lowercase_text(trim_text(line));
    head_command(text.as_str().as_bytes())
}

/// Reads what the user typed where a byte of the configuration is entered.
pub fn read_value_command(line: &str) -> (command: ValueCommand)
    ensures
        command == value_command_of(menu_text(line@)),
{
    let text = lowercase_text(trim_text(line));
    value_command(text.as_str().as_bytes())
}

/// What the user asks for where the firmware image is chosen.
#[derive(Debug, PartialEq, Eq)]
pub enum RomChoice {
    /// Give up choosing an image.
    Quit,
    /// Open the file at this path.
    Open(String),
}

/// Whether a path, in lower case, asks to quit: it starts with `q`.
pub open spec fn asks_to_quit(lowered: Seq<u8>) -> bool {
    lowered.len() > 0 && lowered[0] == LETTER_Q
}

/// Whether a path, in lower case, asks to quit.
pub fn is_quit_path(lowered: &[u8]) -> (quit: bool)
    ensures
        quit == asks_to_quit(lowered@),
{
    lowered.len() > 0 && lowered[0] == LETTER_Q
}

/// The path that a line names: the line without the white space at its end
/// and without double quotes.
pub open spec fn rom_path_of(line: Seq<char>) -> Seq<char> {
    without_quotes(end_trimmed(line))
}

/// Reads what the user typed where the firmware image is chosen: a path,
/// or, where the path starts with `q` or `Q`, the wish to quit.
pub fn read_rom_choice(line: &str) -> (choice: RomChoice)
    ensures
        asks_to_quit(encode_utf8(lowercased(rom_path_of(line@)))) ==> choice == RomChoice::Quit,
        !asks_to_quit(encode_utf8(lowercased(rom_path_of(line@)))) ==> (choice matches RomChoice::Open(
            path,
        ) && path@ == rom_path_of(line@)),
{
    let filename = strip_quotes(trim_end_text(line));
    let lowered = lowercase_text(filename.as_str());
    if is_quit_path(lowered.as_str().as_bytes()) {
        RomChoice::Quit
    } else {
        RomChoice::Open(filename)
    }
}

} // verus!
