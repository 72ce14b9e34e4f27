//! Laws of the messages that are shown to the user.

use crate::capdb::{db_error_text, DbErrorModel};
use crate::elf::{error_text, ElfError};
use crate::scan::{scan_error_text, ScanErrorModel};
use crate::text::{decimal, hex};
use vstd::prelude::*;

verus! {

/// A message is made of these parts, one behind the other.
pub open spec fn is_made_of(message: Seq<char>, parts: Seq<Seq<char>>) -> bool {
    message == parts.flatten()
}

proof fn lemma_three(a: Seq<char>, b: Seq<char>, c: Seq<char>)
    ensures
        seq![a, b, c].flatten() == a + b + c,
{
    reveal_with_fuel(Seq::flatten, 4);
    let all = seq![a, b, c];
    assert(all.drop_first() =~= seq![b, c]);
    assert(seq![b, c].drop_first() =~= seq![c]);
    assert(seq![c].drop_first() =~= Seq::<Seq<char>>::empty());
    assert(all.flatten() =~= a + b + c);
}

proof fn lemma_parts(front: Seq<Seq<char>>, last: Seq<char>)
    ensures
        front.push(last).flatten() == front.flatten() + last,
    decreases front.len(),
{
    reveal_with_fuel(Seq::flatten, 2);
    let all = front.push(last);
    if front.len() == 0 {
        assert(all.drop_first() =~= Seq::<Seq<char>>::empty());
        assert(all.flatten() =~= front.flatten() + last);
    } else {
        assert(all.drop_first() =~= front.drop_first().push(last));
        lemma_parts(front.drop_first(), last);
        assert(all.flatten() =~= front.flatten() + last);
    }
}

/// A message about a file names what was being read first, and then where, with
/// offsets and lengths in hexadecimal and counts and codes in decimal.
pub proof fn law_file_errors_say_where(what: &'static str, a: u64, b: u64, code: u8)
    ensures
        error_text(ElfError::NotElf) == "not an ELF file"@,
        is_made_of(
            error_text(ElfError::UnsupportedClass(code)),
            seq!["unsupported ELF class "@, decimal(code as nat)],
        ),
        is_made_of(
            error_text(ElfError::UnsupportedEncoding(code)),
            seq!["unsupported ELF data encoding "@, decimal(code as nat)],
        ),
        is_made_of(
            error_text(ElfError::Truncated { what, offset: a, len: b }),
            seq![
                what@,
                " at offset "@,
                hex(a as nat),
                " (+"@,
                hex(b as nat),
                ") is out of bounds"@,
            ],
        ),
        is_made_of(
            error_text(ElfError::BadEntrySize { what, size: a }),
            seq![what@, " has invalid entry size "@, decimal(a as nat)],
        ),
        is_made_of(
            error_text(ElfError::BadSectionIndex { what, index: a }),
            seq![what@, " refers to missing section "@, decimal(a as nat)],
        ),
        is_made_of(
            error_text(ElfError::UnterminatedString { what, offset: a }),
            seq![what@, " string at offset "@, hex(a as nat), " is not NUL-terminated"@],
        ),
{
    let empty = Seq::<char>::empty();
    let class = seq!["unsupported ELF class "@];
    let coding = seq!["unsupported ELF data encoding "@];
    lemma_parts(Seq::empty(), class[0]);
    lemma_parts(Seq::empty(), coding[0]);
    assert(Seq::<Seq<char>>::empty().push(class[0]) =~= class);
    assert(Seq::<Seq<char>>::empty().push(coding[0]) =~= coding);
    assert(Seq::<Seq<char>>::empty().flatten() =~= empty);
    assert(empty + class[0] =~= class[0]);
    assert(empty + coding[0] =~= coding[0]);
    lemma_parts(class, decimal(code as nat));
    lemma_parts(coding, decimal(code as nat));
    assert(class.push(decimal(code as nat)) =~= seq![class[0], decimal(code as nat)]);
    assert(coding.push(decimal(code as nat)) =~= seq![coding[0], decimal(code as nat)]);
    let at = seq![what@, " at offset "@, hex(a as nat)];
    lemma_three(what@, " at offset "@, hex(a as nat));
    lemma_parts(at, " (+"@);
    lemma_parts(at.push(" (+"@), hex(b as nat));
    lemma_parts(at.push(" (+"@).push(hex(b as nat)), ") is out of bounds"@);
    assert(at.push(" (+"@).push(hex(b as nat)).push(") is out of bounds"@) =~= seq![
        what@,
        " at offset "@,
        hex(a as nat),
        " (+"@,
        hex(b as nat),
        ") is out of bounds"@,
    ]);
    lemma_three(what@, " has invalid entry size "@, decimal(a as nat));
    lemma_three(what@, " refers to missing section "@, decimal(a as nat));
    let string = seq![what@, " string at offset "@, hex(a as nat)];
    lemma_three(what@, " string at offset "@, hex(a as nat));
    lemma_parts(string, " is not NUL-terminated"@);
    assert(string.push(" is not NUL-terminated"@) =~= seq![
        what@,
        " string at offset "@,
        hex(a as nat),
        " is not NUL-terminated"@,
    ]);
}

/// A message about a scan names the file first; a file outside the root is named
/// before the root.
pub proof fn law_scan_errors_name_the_file(
    path: Seq<char>,
    root: Seq<char>,
    message: Seq<char>,
    source: ElfError,
)
    ensures
        is_made_of(
            scan_error_text(ScanErrorModel::Io { path, message }),
            seq![path, ": "@, message],
        ),
        is_made_of(
            scan_error_text(ScanErrorModel::OutsideRoot { path, root }),
            seq![path, " is not inside root "@, root],
        ),
        scan_error_text(ScanErrorModel::NotElf(path)) == path + ": not an ELF file"@,
        is_made_of(
            scan_error_text(ScanErrorModel::Parse { path, source }),
            seq![path, ": "@, error_text(source)],
        ),
{
    lemma_three(path, ": "@, message);
    lemma_three(path, " is not inside root "@, root);
    lemma_three(path, ": "@, error_text(source));
}

/// A message about a database gives the line, in decimal, or the capability.
pub proof fn law_database_errors_give_the_line(
    line: nat,
    text: Seq<char>,
    field: &'static str,
)
    ensures
        is_made_of(
            db_error_text(DbErrorModel::Syntax { line, message: text }),
            seq!["line "@, decimal(line), ": "@, text],
        ),
        is_made_of(
            db_error_text(DbErrorModel::Duplicate { line, name: text }),
            seq!["line "@, decimal(line), ": '"@, text, "' is listed twice"@],
        ),
        is_made_of(
            db_error_text(DbErrorModel::MissingField { capability: text, field }),
            seq!["capability '"@, text, "' has no "@, field@],
        ),
{
    let plain = seq!["line "@, decimal(line), ": "@];
    lemma_three("line "@, decimal(line), ": "@);
    lemma_parts(plain, text);
    assert(plain.push(text) =~= seq!["line "@, decimal(line), ": "@, text]);
    let quoted = seq!["line "@, decimal(line), ": '"@];
    lemma_three("line "@, decimal(line), ": '"@);
    lemma_parts(quoted, text);
    lemma_parts(quoted.push(text), "' is listed twice"@);
    assert(quoted.push(text).push("' is listed twice"@) =~= seq![
        "line "@,
        decimal(line),
        ": '"@,
        text,
        "' is listed twice"@,
    ]);
    let capability = seq!["capability '"@, text, "' has no "@];
    lemma_three("capability '"@, text, "' has no "@);
    lemma_parts(capability, field@);
    assert(capability.push(field@) =~= seq!["capability '"@, text, "' has no "@, field@]);
}

} // verus!
