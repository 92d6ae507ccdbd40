use exmodhop::cli::{Editor, Shell};
use exmodhop::fzf::{editor_command, parse_selection, selection_from_text, Selection};
use exmodhop::init::{init_bash, init_script, init_zsh};

fn chosen(path: &str, line: &str) -> Selection {
    Selection::Chosen { path: path.to_string(), line: line.to_string() }
}

fn same(a: &Selection, b: &Selection) -> bool {
    match (a, b) {
        (Selection::Nothing, Selection::Nothing) => true,
        (Selection::Malformed, Selection::Malformed) => true,
        (Selection::Chosen { path: p1, line: l1 }, Selection::Chosen { path: p2, line: l2 }) => p1 == p2 && l1 == l2,
        _ => false,
    }
}

#[test]
fn selection_of_empty_output_is_nothing() {
    assert!(same(&selection_from_text(""), &Selection::Nothing));
    assert!(same(&selection_from_text(" \n\t\n"), &Selection::Nothing));
}

#[test]
fn selection_takes_path_and_line_fields() {
    let s = selection_from_text("MyApp.Repo\t/home/dev/app/lib/repo.ex\t3\n");
    assert!(same(&s, &chosen("/home/dev/app/lib/repo.ex", "3")));
    let s = selection_from_text("A\tp\t12\textra");
    assert!(same(&s, &chosen("p", "12")));
}

#[test]
fn selection_without_enough_fields_is_malformed() {
    assert!(same(&selection_from_text("MyApp.Repo\t/home/dev/x.ex\n"), &Selection::Malformed));
    assert!(same(&selection_from_text("MyApp\t\t4"), &Selection::Malformed));
    assert!(same(&selection_from_text("MyApp\tpath\t"), &Selection::Malformed));
    assert!(same(&selection_from_text("just text"), &Selection::Malformed));
}

#[test]
fn parse_selection_reads_bytes_lossily() {
    let s = parse_selection(b"Mod\t/a/b.ex\t9\n");
    assert!(same(&s, &chosen("/a/b.ex", "9")));
    let s = parse_selection(&[b'M', b'\t', b'/', 0xff, b'\t', b'1']);
    assert!(same(&s, &chosen("/\u{fffd}", "1")));
    assert!(same(&parse_selection(b""), &Selection::Nothing));
}

#[test]
fn editor_commands_open_path_at_line() {
    let cmd = |e: Editor| editor_command(&e, "/a/b.ex", "12");
    assert_eq!(cmd(Editor::Neovim), ("nvim".to_string(), "+12 /a/b.ex".to_string()));
    assert_eq!(cmd(Editor::Vim), ("nvim".to_string(), "+12 /a/b.ex".to_string()));
    assert_eq!(cmd(Editor::Vscode), ("open".to_string(), "vscode://file//a/b.ex:12".to_string()));
    assert_eq!(cmd(Editor::Zed), ("zed".to_string(), "/a/b.ex:12".to_string()));
}

#[test]
fn init_scripts_bind_ctrl_s() {
    let bash = init_bash();
    assert!(bash.starts_with("# Add this to your ~/.bashrc\n"));
    assert!(bash.contains("bind -x '\"\\C-s\": _exmodhop_run'"));
    assert!(bash.ends_with("_exmodhop_run'\n"));
    let zsh = init_zsh();
    assert!(zsh.starts_with("# Add this to your ~/.zshrc\n# eval \"$(exmodhop init zsh)\"\n\n"));
    assert!(zsh.contains("    if [[ $? -ne 0 ]]; then echo \"\\n\"; fi\n"));
    assert!(zsh.ends_with("bindkey '^S' _exmodhop_run\n"));
    assert_eq!(init_script(&Shell::Bash), bash);
    assert_eq!(init_script(&Shell::Zsh), zsh);
}

#[test]
fn bash_init_script_is_exact() {
    let expected = "# Add this to your ~/.bashrc\n# eval \"$(exmodhop init bash)\"\n\n_exmodhop_run() {\n    exmodhop\n}\nbind -x '\"\\C-s\": _exmodhop_run'\n";
    assert_eq!(init_bash(), expected);
}

#[test]
fn listing_line_selects_its_module() {
    let mut index = exmodhop::index::Index::new("/cfg", None);
    index.insert("/home/dev/app/lib/repo.ex".to_string(), vec![("MyApp.Repo".to_string(), 42)]);
    index.save();
    let listing = index.save_index();
    let s = selection_from_text(&listing);
    assert!(same(&s, &chosen("/home/dev/app/lib/repo.ex", "42")));
    let (command, arg) = editor_command(&Editor::Zed, "/home/dev/app/lib/repo.ex", "42");
    assert_eq!((command.as_str(), arg.as_str()), ("zed", "/home/dev/app/lib/repo.ex:42"));
}
