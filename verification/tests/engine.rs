use rtl_terminal_core::bidi::{contains_rtl, visual_line};
use rtl_terminal_core::process_output;
use rtl_terminal_core::session::{
    choose_home, choose_shell, drain_output, poll_continues, poll_count, powershell_path, record_read,
};
use rtl_terminal_core::shaping::{breaks_context, variants};
use rtl_terminal_core::shaping::shape_arabic;
use std::collections::VecDeque;

#[test]
fn detects_rtl() {
    assert!(contains_rtl("مرحبا"));
    assert!(contains_rtl("hello مرحبا"));
    assert!(!contains_rtl("plain english 123"));
}

#[test]
fn shapes_lam_alef() {
    let shaped = shape_arabic(&String::from("لا"));
    assert!(shaped.chars().next().unwrap() as u32 >= 0xFEFB);
}

#[test]
fn shapes_alef_isolated() {
    let shaped = shape_arabic(&String::from("ا"));
    assert_eq!(shaped, "\u{FE8D}");
}

#[test]
fn keeps_non_rtl_untouched() {
    let out = process_output("hello world 123\n");
    assert_eq!(out, "hello world 123\n");
}

#[test]
fn processes_rtl_line() {
    let out = process_output("مرحبا");
    assert!(!out.is_empty());
    assert!(out.chars().any(|c| c as u32 >= 0xFE70));
}

#[test]
fn ansi_escapes_survive() {
    let input = "\x1b[32mمرحبا\x1b[0m test";
    let out = process_output(input);
    assert!(out.contains("\x1b[32m"));
    assert!(out.contains("\x1b[0m"));
}

#[test]
fn mixed_bidi_digits_stay_attached() {
    let out = process_output("echo مرحبا 123 test");
    assert!(out.contains("123"));
    assert!(out.contains("echo"));
    assert!(out.contains("test"));
}

// Exact results.

#[test]
fn contains_rtl_edges() {
    assert!(!contains_rtl(""));
    assert!(contains_rtl("\u{0590}"));
    assert!(!contains_rtl("\u{058F}"));
    assert!(contains_rtl("\u{08FF}"));
    assert!(!contains_rtl("\u{0900}"));
    assert!(contains_rtl("\u{FB1D}"));
    assert!(contains_rtl("\u{FDFF}"));
    assert!(!contains_rtl("\u{FE6F}"));
    assert!(contains_rtl("\u{FE70}"));
    assert!(contains_rtl("\u{FEFC}"));
    assert!(!contains_rtl("\u{FEFD}"));
    assert!(contains_rtl("שלום"));
}

#[test]
fn shaping_forms_by_position() {
    assert_eq!(shape_arabic(&String::from("ببب")), "\u{FE91}\u{FE92}\u{FE90}");
    assert_eq!(shape_arabic(&String::from("ب")), "\u{FE8F}");
    assert_eq!(shape_arabic(&String::from("")), "");
}

#[test]
fn shaping_lam_alef_joined_to_previous_letter() {
    assert_eq!(shape_arabic(&String::from("بلا")), "\u{FE91}\u{FEFC}");
    assert_eq!(shape_arabic(&String::from("سلام")), "\u{FEB3}\u{FEFC}\u{FEE1}");
    assert_eq!(shape_arabic(&String::from("لأ")), "\u{FEF7}");
    assert_eq!(shape_arabic(&String::from("لإ")), "\u{FEF9}");
    assert_eq!(shape_arabic(&String::from("لآ")), "\u{FEF5}");
}

#[test]
fn shaping_keeps_unshaped_text() {
    assert_eq!(shape_arabic(&String::from("abc 123 שלום")), "abc 123 שלום");
}

#[test]
fn shaping_length_law() {
    let word = String::from("سلام");
    let shaped = shape_arabic(&word);
    assert_eq!(shaped.chars().count(), word.chars().count() - 1);
    let word2 = String::from("مرحبا");
    assert_eq!(shape_arabic(&word2).chars().count(), word2.chars().count());
}

#[test]
fn visual_line_keeps_ltr_line() {
    let line = String::from("plain text 42");
    assert_eq!(visual_line(&line), "plain text 42");
}

#[test]
fn visual_line_reverses_when_rtl_runs_dominate() {
    assert_eq!(visual_line(&String::from("ب x")), "x\u{FE8F} ");
    assert_eq!(visual_line(&String::from("x ب")), "\u{FE8F}x ");
}

#[test]
fn visual_line_keeps_order_when_ltr_runs_dominate() {
    assert_eq!(visual_line(&String::from("abc ب ب def")), "abc \u{FE8F} \u{FE8F} def");
}

#[test]
fn digits_attach_to_preceding_run() {
    let out = process_output("echo مرحبا 123 test");
    assert_eq!(out, "echo \u{FEE3}\u{FEAE}\u{FEA3}\u{FE92}\u{FE8E} 123 test");
}

#[test]
fn rtl_line_exact() {
    assert_eq!(process_output("مرحبا"), "\u{FEE3}\u{FEAE}\u{FEA3}\u{FE92}\u{FE8E}");
}

#[test]
fn ansi_escapes_exact() {
    let out = process_output("\x1b[32mمرحبا\x1b[0m test");
    assert_eq!(out, "\x1b[32m\u{FEE3}\u{FEAE}\u{FEA3}\u{FE92}\u{FE8E}\x1b[0m test");
}

#[test]
fn osc_sequence_runs_to_bell() {
    let out = process_output("\x1b]0;عنوان\x07نص");
    assert_eq!(out, "\x1b]0;عنوان\x07\u{FEE7}\u{FEBA}");
}

#[test]
fn other_escape_takes_one_more_char() {
    let out = process_output("سلام\x1b(Bok");
    assert_eq!(out, "\u{FEB3}\u{FEFC}\u{FEE1}\x1b(Bok");
}

#[test]
fn escape_at_end_of_line() {
    assert_eq!(process_output("بب\x1b"), "\u{FE91}\u{FE90}\x1b");
    assert_eq!(process_output("بب\x1b["), "\u{FE91}\u{FE90}\x1b[");
}

#[test]
fn ltr_output_unchanged() {
    let s = "ls -la\r\n\x1b[1;34mdir\x1b[0m  file.txt\n";
    assert_eq!(process_output(s), s);
    assert_eq!(process_output(""), "");
}

#[test]
fn lines_processed_separately() {
    let whole = process_output("مرحبا\nabc");
    let expected = process_output("مرحبا") + "\n" + &process_output("abc");
    assert_eq!(whole, expected);
    assert_eq!(whole, "\u{FEE3}\u{FEAE}\u{FEA3}\u{FE92}\u{FE8E}\nabc");
    assert_eq!(process_output("\r\n"), "\r\n");
}

#[test]
fn poll_takes_bounded_prefix() {
    let mut q: VecDeque<Vec<u8>> = VecDeque::new();
    q.push_back(b"ab".to_vec());
    q.push_back(b"cd".to_vec());
    q.push_back(b"ef".to_vec());
    let out = drain_output(&mut q, 3);
    assert_eq!(out, "abcd");
    assert_eq!(q.len(), 1);
    assert_eq!(q[0], b"ef".to_vec());
    let rest = drain_output(&mut q, 100);
    assert_eq!(rest, "ef");
    assert!(q.is_empty());
    assert_eq!(drain_output(&mut q, 100), "");
}

#[test]
fn poll_with_zero_bound_takes_nothing() {
    let mut q: VecDeque<Vec<u8>> = VecDeque::new();
    q.push_back(b"ab".to_vec());
    assert_eq!(drain_output(&mut q, 0), "");
    assert_eq!(q.len(), 1);
}

#[test]
fn poll_decodes_utf8_and_replaces_invalid_bytes() {
    let mut q: VecDeque<Vec<u8>> = VecDeque::new();
    q.push_back("مرحبا".as_bytes().to_vec());
    q.push_back(vec![0x66, 0xFF, 0x67]);
    let out = drain_output(&mut q, 1000);
    assert_eq!(out, "مرحباf\u{FFFD}g");
}

#[test]
fn default_shell_choices() {
    let (p, a) = choose_shell(false, String::from("ps"), true, None, Some(String::from("/bin/zsh")));
    assert_eq!(p, "/bin/zsh");
    assert_eq!(a, vec![String::from("-i")]);
    let (p, a) = choose_shell(false, String::from("ps"), false, None, None);
    assert_eq!(p, "/bin/bash");
    assert_eq!(a, vec![String::from("-i")]);
    let (p, a) = choose_shell(true, String::from("ps.exe"), true, None, None);
    assert_eq!(p, "ps.exe");
    assert_eq!(a, vec![String::from("-NoLogo"), String::from("-NoProfile")]);
    let (p, a) = choose_shell(true, String::from("ps.exe"), false, Some(String::from("c.exe")), None);
    assert_eq!(p, "c.exe");
    assert!(a.is_empty());
    let (p, a) = choose_shell(true, String::from("ps.exe"), false, None, None);
    assert_eq!(p, "cmd.exe");
    assert!(a.is_empty());
}

#[test]
fn powershell_path_under_system_root() {
    assert_eq!(
        powershell_path(None),
        r"C:\Windows\\System32\\WindowsPowerShell\\v1.0\\powershell.exe"
    );
    assert_eq!(
        powershell_path(Some(String::from("D:\\Win"))),
        r"D:\Win\\System32\\WindowsPowerShell\\v1.0\\powershell.exe"
    );
}

#[test]
fn escape_sequence_splits_plain_runs() {
    let out = process_output("ب\x1b[1mب x");
    assert_eq!(out, "\u{FE8F}\x1b[1mx\u{FE8F} ");
    let expected = visual_line(&String::from("ب")) + "\x1b[1m" + &visual_line(&String::from("ب x"));
    assert_eq!(out, expected);
    assert_eq!(process_output("ب x\x1b[1;31mب"), "x\u{FE8F} \x1b[1;31m\u{FE8F}");
}

#[test]
fn shaping_isolated_letters() {
    assert_eq!(shape_arabic(&String::from("ل")), "\u{FEDD}");
    assert_eq!(shape_arabic(&String::from("م")), "\u{FEE1}");
    assert_eq!(shape_arabic(&String::from("ن")), "\u{FEE5}");
    assert_eq!(shape_arabic(&String::from("ه")), "\u{FEE9}");
    assert_eq!(shape_arabic(&String::from("ى")), "\u{FEEF}");
    assert_eq!(shape_arabic(&String::from("ي")), "\u{FEF1}");
}

#[test]
fn shaping_marhaba_forms() {
    assert_eq!(
        shape_arabic(&String::from("مرحبا")),
        "\u{FEE3}\u{FEAE}\u{FEA3}\u{FE92}\u{FE8E}"
    );
    assert_eq!(shape_arabic(&String::from("ملم")), "\u{FEE3}\u{FEE0}\u{FEE2}");
}

#[test]
fn shaping_waw_hamza_does_not_join_forward() {
    assert_eq!(shape_arabic(&String::from("ؤب")), "\u{FE85}\u{FE8F}");
}

#[test]
fn shaping_joining_stops_at_space() {
    assert_eq!(shape_arabic(&String::from("ب ب")), "\u{FE8F} \u{FE8F}");
    assert_eq!(shape_arabic(&String::from("ب1ب")), "\u{FE8F}1\u{FE8F}");
}

#[test]
fn lines_processed_separately_with_many_lines() {
    let head = "ب x\r\nabc\nمرحبا";
    let rest = "x ب\n";
    let whole = process_output(&format!("{}\n{}", head, rest));
    assert_eq!(whole, process_output(head) + "\n" + &process_output(rest));
}

#[test]
fn reader_queues_bytes_read() {
    let mut q: VecDeque<Vec<u8>> = VecDeque::new();
    let buf = b"hello world".to_vec();
    assert!(record_read(&mut q, &buf, Some(5)));
    assert_eq!(q.len(), 1);
    assert_eq!(q[0], b"hello".to_vec());
    assert!(record_read(&mut q, &buf, Some(0)));
    assert_eq!(q.len(), 1);
    assert!(!record_read(&mut q, &buf, None));
    assert_eq!(q.len(), 1);
    assert!(record_read(&mut q, &buf, Some(11)));
    assert_eq!(q[1], b"hello world".to_vec());
}

#[test]
fn home_directory_choice() {
    assert_eq!(choose_home(Some(String::from("/home/a")), Some(String::from("C:\\u"))), "/home/a");
    assert_eq!(choose_home(None, Some(String::from("C:\\u"))), "C:\\u");
    assert_eq!(choose_home(None, None), ".");
}

#[test]
fn poll_decision_on_decoded_texts() {
    let texts = vec![String::from("\u{FFFD}"), String::from("ab"), String::from("cd")];
    // U+FFFD takes three bytes, so a bound of 3 stops after it.
    assert_eq!(poll_count(&texts, 3), 1);
    assert_eq!(poll_count(&texts, 4), 2);
    assert_eq!(poll_count(&texts, 100), 3);
    assert_eq!(poll_count(&texts, 0), 0);
    assert!(poll_continues("ab", true, 3));
    assert!(!poll_continues("abc", true, 3));
    assert!(!poll_continues("", false, 3));
}

#[test]
fn reads_and_polls_lose_nothing() {
    let mut q: VecDeque<Vec<u8>> = VecDeque::new();
    let mut handed_out = String::new();
    let inputs: Vec<&[u8]> = vec![b"one ", "دو ".as_bytes(), b"\xFFthree", b" four"];
    for (i, bytes) in inputs.iter().enumerate() {
        assert!(record_read(&mut q, bytes, Some(bytes.len())));
        if i % 2 == 1 {
            handed_out.push_str(&drain_output(&mut q, 5));
        }
    }
    while !q.is_empty() {
        handed_out.push_str(&drain_output(&mut q, 1));
    }
    assert_eq!(handed_out, "one دو \u{FFFD}three four");
}

#[test]
fn table_layout_and_non_joining_letters() {
    for code in 0x0621u32..=0x064Au32 {
        let c = char::from_u32(code).unwrap();
        let v = variants(c);
        if v.present {
            assert_eq!(v.fin as u32, v.iso as u32 + 1);
            assert_eq!(breaks_context(c), v.ini == '\0');
            if v.ini != '\0' {
                assert_eq!(v.ini as u32, v.iso as u32 + 2);
                assert_eq!(v.med as u32, v.iso as u32 + 3);
            }
        } else {
            assert!(!breaks_context(c));
        }
    }
}
