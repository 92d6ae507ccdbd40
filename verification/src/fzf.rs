use vstd::prelude::*;
use vstd::utf8::{decode_utf8, valid_utf8};

use crate::cli::Editor;
use crate::index::{row_line, RowView};
use crate::text::{
    chars_of, decimal, is_whitespace, pieces_view, split_chars, split_on, string_of, trim,
    trim_chars, trim_end, trim_start,
};

verus! {

/// What fzf printed for the chosen line of the module listing.
pub enum Selection {
    /// Nothing was chosen.
    Nothing,
    /// The chosen line lacks a path or a line number.
    Malformed,
    /// The chosen line names a source path and a line number.
    Chosen { path: String, line: String },
}

/// A [`Selection`] as mathematical values.
pub enum SelectionView {
    Nothing,
    Malformed,
    Chosen { path: Seq<char>, line: Seq<char> },
}

impl View for Selection {
    type V = SelectionView;

    open spec fn view(&self) -> SelectionView {
        match self {
            Selection::Nothing => SelectionView::Nothing,
            Selection::Malformed => SelectionView::Malformed,
            Selection::Chosen { path, line } => SelectionView::Chosen { path: path@, line: line@ },
        }
    }
}

/// The selection in fzf's output: after trimming whitespace, nothing when empty; otherwise
/// the second and third tab-separated fields, which must both be present and non-empty.
pub open spec fn selection_of(text: Seq<char>) -> SelectionView {
    let t = trim(text);
    if t.len() == 0 {
        SelectionView::Nothing
    } else {
        let parts = split_on(t, '\t');
        if parts.len() < 3 || parts[1].len() == 0 || parts[2].len() == 0 {
            SelectionView::Malformed
        } else {
            SelectionView::Chosen { path: parts[1], line: parts[2] }
        }
    }
}

/// The text that `String::from_utf8_lossy` makes of some bytes.
pub uninterp spec fn utf8_lossy(bytes: Seq<u8>) -> Seq<char>;

/// `String::from_utf8_lossy`: the text of `bytes`, with each invalid sequence replaced.
/// Claimed: the text is a function of the bytes, and valid UTF-8 is read as it is.
#[verifier::external_body]
fn lossy_text(bytes: &[u8]) -> (text: String)
    ensures
        text@ == utf8_lossy(bytes@),
        valid_utf8(bytes@) ==> text@ == decode_utf8(bytes@),
{
    String::from_utf8_lossy(bytes).into_owned()
}

/// The selection in the text that fzf printed.
pub fn selection_from_text(text: &str) -> (selection: Selection)
    ensures
        selection@ == selection_of(text@),
{
    let chars = chars_of(text);
    let t = trim_chars(chars.as_slice());
    if t.len() == 0 {
        return Selection::Nothing;
    }
    let parts = split_chars(t.as_slice(), '\t');
    let ghost pv = pieces_view(parts@);
    if parts.len() < 3 {
        return Selection::Malformed;
    }
    assert(pv[1] == parts@[1]@ && pv[2] == parts@[2]@);
    if parts[1].len() == 0 || parts[2].len() == 0 {
        return Selection::Malformed;
    }
    Selection::Chosen { path: string_of(parts[1].as_slice()), line: string_of(parts[2].as_slice()) }
}

/// The selection in the bytes that fzf wrote to its standard output.
pub fn parse_selection(fzf_output: &[u8]) -> (selection: Selection)
    ensures
        selection@ == selection_of(utf8_lossy(fzf_output@)),
        valid_utf8(fzf_output@) ==> selection@ == selection_of(decode_utf8(fzf_output@)),
{
    let text = lossy_text(fzf_output);
    selection_from_text(text.as_str())
}

/// The program and the single argument that open `path` at `line` in `editor`.
pub open spec fn editor_command_of(editor: Editor, path: Seq<char>, line: Seq<char>) -> (Seq<char>, Seq<char>) {
    match editor {
        Editor::Neovim => ("nvim"@, "+"@ + line + " "@ + path),
        Editor::Vim => ("nvim"@, "+"@ + line + " "@ + path),
        Editor::Vscode => ("open"@, "vscode://file/"@ + path + ":"@ + line),
        Editor::Zed => ("zed"@, path + ":"@ + line),
    }
}

/// The program and the single argument that open `path` at `line` in `editor`.
pub fn editor_command(editor: &Editor, path: &str, line: &str) -> (command: (String, String))
    ensures
        (command.0@, command.1@) == editor_command_of(*editor, path@, line@),
{
    match editor {
        Editor::Neovim | Editor::Vim => {
            let mut arg = "+".to_owned();
            arg.append(line);
            arg.append(" ");
            arg.append(path);
            ("nvim".to_owned(), arg)
        },
        Editor::Vscode => {
            let mut arg = "vscode://file/".to_owned();
            arg.append(path);
            arg.append(":");
            arg.append(line);
            ("open".to_owned(), arg)
        },
        Editor::Zed => {
            let mut arg = path.to_owned();
            arg.append(":");
            arg.append(line);
            ("zed".to_owned(), arg)
        },
    }
}

// ---------------------------------------------------------------------------
// Choosing a line of the module listing
// ---------------------------------------------------------------------------

proof fn lemma_decimal_digits(n: nat)
    ensures
        decimal(n).len() > 0,
        forall|k: int| 0 <= k < decimal(n).len() ==> 0x30 <= (#[trigger] decimal(n)[k]) as u32 <= 0x39,
    decreases n,
{
    if n >= 10 {
        lemma_decimal_digits(n / 10);
        let d = decimal(n);
        assert forall|k: int| 0 <= k < d.len() implies 0x30 <= (#[trigger] d[k]) as u32 <= 0x39 by {
            if k < d.len() - 1 {
                assert(d[k] == decimal(n / 10)[k]);
            }
        }
    }
}

proof fn lemma_split_no_sep(s: Seq<char>, sep: char)
    requires
        forall|k: int| 0 <= k < s.len() ==> s[k] != sep,
    ensures
        split_on(s, sep) == seq![s],
    decreases s.len(),
{
    if s.len() > 0 {
        lemma_split_no_sep(s.drop_first(), sep);
        assert(seq![s[0]] + s.drop_first() =~= s);
        assert(split_on(s, sep) =~= seq![s]);
    } else {
        assert(s =~= Seq::<char>::empty());
    }
}

proof fn lemma_split_at_sep(a: Seq<char>, sep: char, b: Seq<char>)
    requires
        forall|k: int| 0 <= k < a.len() ==> a[k] != sep,
    ensures
        split_on(a + seq![sep] + b, sep) == seq![a] + split_on(b, sep),
    decreases a.len(),
{
    let s = a + seq![sep] + b;
    if a.len() == 0 {
        assert(s.drop_first() =~= b);
        assert(a =~= Seq::<char>::empty());
    } else {
        let rest_a = a.drop_first();
        lemma_split_at_sep(rest_a, sep, b);
        assert(s.drop_first() =~= rest_a + seq![sep] + b);
        assert(s[0] == a[0]);
        assert(seq![a[0]] + rest_a =~= a);
        assert(split_on(s, sep) =~= seq![a] + split_on(b, sep));
    }
}

/// Choosing a line of the module listing in fzf opens that module's source file at its line,
/// when the module name starts with no whitespace and neither the name nor the path holds a
/// tab, and the path is not empty.
pub proof fn law_listing_line_selects_its_module(row: RowView)
    requires
        row.0.len() > 0,
        !is_whitespace(row.0[0]),
        forall|k: int| 0 <= k < row.0.len() ==> row.0[k] != '\t',
        row.1.len() > 0,
        forall|k: int| 0 <= k < row.1.len() ==> row.1[k] != '\t',
    ensures
        selection_of(row_line(row)) == (SelectionView::Chosen { path: row.1, line: decimal(row.2 as nat) }),
{
    let digits = decimal(row.2 as nat);
    lemma_decimal_digits(row.2 as nat);
    let body = row.0 + seq!['\t'] + row.1 + seq!['\t'] + digits;
    let line = row_line(row);
    assert(line =~= body.push('\n'));
    assert(trim_start(line) == line) by {
        assert(line[0] == row.0[0]);
    }
    assert(trim_end(line) == trim_end(body)) by {
        assert(line.last() == '\n');
        assert(is_whitespace('\n'));
        assert(line.drop_last() =~= body);
    }
    assert(trim_end(body) == body) by {
        assert(body.last() == digits[digits.len() - 1]);
    }
    assert(trim(line) == body);
    assert forall|k: int| 0 <= k < digits.len() implies digits[k] != '\t' by {
        assert(0x30 <= digits[k] as u32);
    }
    lemma_split_no_sep(digits, '\t');
    lemma_split_at_sep(row.1, '\t', digits);
    lemma_split_at_sep(row.0, '\t', row.1 + seq!['\t'] + digits);
    assert(body =~= row.0 + seq!['\t'] + (row.1 + seq!['\t'] + digits));
    let parts = split_on(body, '\t');
    assert(parts =~= seq![row.0, row.1, digits]);
}

/// The editor command carries the chosen path and the whole line text, each readable back
/// from the argument at a fixed place: after `+` and before a space (nvim, for Neovim and
/// Vim), or after the path and a `:` at the end of the argument (VS Code's URL, Zed).
pub proof fn law_editor_command_carries_path_and_line(editor: Editor, path: Seq<char>, line: Seq<char>)
    ensures
        ({
            let (program, arg) = editor_command_of(editor, path, line);
            match editor {
                Editor::Neovim | Editor::Vim => {
                    &&& program == seq!['n', 'v', 'i', 'm']
                    &&& arg.len() == line.len() + path.len() + 2
                    &&& arg[0] == '+'
                    &&& arg.subrange(1, (line.len() + 1) as int) == line
                    &&& arg[(line.len() + 1) as int] == ' '
                    &&& arg.skip((line.len() + 2) as int) == path
                },
                Editor::Vscode => {
                    &&& program == seq!['o', 'p', 'e', 'n']
                    &&& arg.len() == path.len() + line.len() + 15
                    &&& arg.take(14) == "vscode://file/"@
                    &&& arg.subrange(14, (path.len() + 14) as int) == path
                    &&& arg[(path.len() + 14) as int] == ':'
                    &&& arg.skip((path.len() + 15) as int) == line
                },
                Editor::Zed => {
                    &&& program == seq!['z', 'e', 'd']
                    &&& arg.len() == path.len() + line.len() + 1
                    &&& arg.take(path.len() as int) == path
                    &&& arg[path.len() as int] == ':'
                    &&& arg.skip((path.len() + 1) as int) == line
                },
            }
        }),
{
    reveal_strlit("nvim");
    reveal_strlit("open");
    reveal_strlit("zed");
    reveal_strlit("+");
    reveal_strlit(" ");
    reveal_strlit(":");
    reveal_strlit("vscode://file/");
    let (program, arg) = editor_command_of(editor, path, line);
    match editor {
        Editor::Neovim | Editor::Vim => {
            assert(program =~= seq!['n', 'v', 'i', 'm']);
            assert(arg.subrange(1, (line.len() + 1) as int) =~= line);
            assert(arg.skip((line.len() + 2) as int) =~= path);
        },
        Editor::Vscode => {
            assert(program =~= seq!['o', 'p', 'e', 'n']);
            assert(arg.take(14) =~= "vscode://file/"@);
            assert(arg.subrange(14, (path.len() + 14) as int) =~= path);
            assert(arg.skip((path.len() + 15) as int) =~= line);
        },
        Editor::Zed => {
            assert(program =~= seq!['z', 'e', 'd']);
            assert(arg.take(path.len() as int) =~= path);
            assert(arg.skip((path.len() + 1) as int) =~= line);
        },
    }
}

} // verus!
