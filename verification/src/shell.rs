//! Texts of the application's vault screens.
use vstd::prelude::*;

use crate::text::{chars_of, extend_chars, string_of};
use crate::vault::model::{
    all_citations, count_severity, lemma_count_severity_bounds, note_diagnostics,
    total_backlinks, total_references, DiagnosticSeverity, VaultIndex,
};
use crate::vault::paths::{file_name, file_name_exec, names_of, path_names, views};

verus! {

/// The decimal digit for `d`, which is below ten.
pub open spec fn digit_char(d: int) -> char {
    if d == 0 {
        '0'
    } else if d == 1 {
        '1'
    } else if d == 2 {
        '2'
    } else if d == 3 {
        '3'
    } else if d == 4 {
        '4'
    } else if d == 5 {
        '5'
    } else if d == 6 {
        '6'
    } else if d == 7 {
        '7'
    } else if d == 8 {
        '8'
    } else {
        '9'
    }
}

/// `n` written in decimal.
pub open spec fn decimal(n: nat) -> Seq<char>
    decreases n,
{
    if n < 10 {
        seq![digit_char(n as int)]
    } else {
        decimal(n / 10).push(digit_char((n % 10) as int))
    }
}

fn digit_exec(d: usize) -> (c: char)
    requires
        d < 10,
    ensures
        c == digit_char(d as int),
{
    if d == 0 {
        '0'
    } else if d == 1 {
        '1'
    } else if d == 2 {
        '2'
    } else if d == 3 {
        '3'
    } else if d == 4 {
        '4'
    } else if d == 5 {
        '5'
    } else if d == 6 {
        '6'
    } else if d == 7 {
        '7'
    } else if d == 8 {
        '8'
    } else {
        '9'
    }
}

/// `n` in decimal.
pub fn decimal_exec(n: usize) -> (text: Vec<char>)
    ensures
        text@ == decimal(n as nat),
    decreases n,
{
    if n < 10 {
        let text = vec![digit_exec(n)];
        assert(text@ =~= seq![digit_char(n as int)]);
        text
    } else {
        let mut text = decimal_exec(n / 10);
        text.push(digit_exec(n % 10));
        text
    }
}

/// `<notes> notes  ·  <references> references  ·  <backlinks> backlinks  ·  <citations>
/// citations  ·  <issues> issues`, where issues counts warnings and errors.
pub fn vault_summary(index: &VaultIndex) -> (summary: String)
    requires
        total_references(index.notes@) <= usize::MAX,
        total_backlinks(index.notes@) <= usize::MAX,
        all_citations(index.notes@).len() <= usize::MAX,
        index.diagnostics@.len() + note_diagnostics(index.notes@).len() <= usize::MAX,
    ensures
        summary@ == summary_text(*index),
{
    let (warnings, errors) = index.diagnostic_counts();
    proof {
        lemma_count_severity_bounds(index.diagnostics@ + note_diagnostics(index.notes@));
    }
    let mut text = decimal_exec(index.notes.len());
    extend_chars(&mut text, &chars_of(" notes  ·  "));
    extend_chars(&mut text, &decimal_exec(index.reference_count()));
    extend_chars(&mut text, &chars_of(" references  ·  "));
    extend_chars(&mut text, &decimal_exec(index.backlink_count()));
    extend_chars(&mut text, &chars_of(" backlinks  ·  "));
    extend_chars(&mut text, &decimal_exec(index.unique_citation_count()));
    extend_chars(&mut text, &chars_of(" citations  ·  "));
    extend_chars(&mut text, &decimal_exec(warnings + errors));
    extend_chars(&mut text, &chars_of(" issues"));
    string_of(text.as_slice())
}

/// The summary line of a scanned vault.
pub open spec fn summary_text(index: VaultIndex) -> Seq<char> {
    let diagnostics = index.diagnostics@ + note_diagnostics(index.notes@);
    let issues = count_severity(diagnostics, DiagnosticSeverity::Warning) + count_severity(
        diagnostics,
        DiagnosticSeverity::Error,
    );
    decimal(index.notes@.len()) + " notes  ·  "@ + decimal(total_references(index.notes@) as nat)
        + " references  ·  "@ + decimal(total_backlinks(index.notes@) as nat) + " backlinks  ·  "@
        + decimal(all_citations(index.notes@).to_set().len()) + " citations  ·  "@ + decimal(
        issues as nat,
    ) + " issues"@
}

/// The name a vault folder is shown by: its last name, or `Vault` when it has none.
pub open spec fn vault_label(path: Seq<char>) -> Seq<char> {
    match file_name(path_names(path)) {
        Some(n) => n,
        None => "Vault"@,
    }
}

/// The name of the vault folder at `path`.
pub fn vault_name(path: &str) -> (name: String)
    ensures
        name@ == vault_label(path@),
{
    let names = names_of(&chars_of(path));
    assert(views(names@) == path_names(path@));
    match file_name_exec(&names) {
        Some(n) => string_of(n.as_slice()),
        None => string_of(chars_of("Vault").as_slice()),
    }
}


/// The number a text of decimal digits stands for, most significant digit first, each
/// character read by its code point less that of `0`.
pub open spec fn read_decimal(text: Seq<char>) -> int
    decreases text.len(),
{
    if text.len() == 0 {
        0
    } else {
        read_decimal(text.drop_last()) * 10 + (text.last() as int - '0' as int)
    }
}

proof fn lemma_digit_value(d: int)
    requires
        0 <= d < 10,
    ensures
        digit_char(d) as int - '0' as int == d,
        '0' <= digit_char(d) <= '9',
{
    assert('0' as int == 48);
    if d == 0 {
    } else if d == 1 {
        assert('1' as int == 49);
    } else if d == 2 {
        assert('2' as int == 50);
    } else if d == 3 {
        assert('3' as int == 51);
    } else if d == 4 {
        assert('4' as int == 52);
    } else if d == 5 {
        assert('5' as int == 53);
    } else if d == 6 {
        assert('6' as int == 54);
    } else if d == 7 {
        assert('7' as int == 55);
    } else if d == 8 {
        assert('8' as int == 56);
    } else {
        assert('9' as int == 57);
    }
}

/// Writing a number in decimal loses nothing: every character is a digit from `0` to `9`,
/// the text reads back as the number, and it starts with `0` only when the number is 0.
pub proof fn law_decimal_reads_back(n: nat)
    ensures
        forall|i: int| 0 <= i < decimal(n).len() ==> '0' <= #[trigger] decimal(n)[i] <= '9',
        read_decimal(decimal(n)) == n,
        decimal(n).len() > 0,
        decimal(n)[0] == '0' ==> n == 0,
    decreases n,
{
    if n < 10 {
        lemma_digit_value(n as int);
        assert(read_decimal(decimal(n)) == read_decimal(seq![digit_char(n as int)]));
        assert(seq![digit_char(n as int)].drop_last() =~= Seq::<char>::empty());
        assert(read_decimal(Seq::<char>::empty()) == 0);
        assert(read_decimal(seq![digit_char(n as int)]) == 0 * 10 + (digit_char(n as int) as int - '0' as int));
    } else {
        law_decimal_reads_back(n / 10);
        let d = (n % 10) as int;
        lemma_digit_value(d);
        let head = decimal(n / 10);
        assert(decimal(n) == head.push(digit_char(d)));
        assert(decimal(n).drop_last() =~= head);
        assert(n == (n / 10) * 10 + d);
        assert(read_decimal(decimal(n)) == read_decimal(head) * 10 + (digit_char(d) as int - '0' as int));
        assert forall|i: int| 0 <= i < decimal(n).len() implies '0' <= #[trigger] decimal(n)[i] <= '9' by {
            if i < head.len() {
                assert(decimal(n)[i] == head[i]);
            }
        }
        assert(decimal(n)[0] == head[0]);
    }
}

} // verus!
