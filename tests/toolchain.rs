use cite::toolchain::{
    advance, current_step, failure_message, finished, output_text, start, step, toolchain, Stage, DOCUMENT,
    OUTPUT, STEP_COUNT,
};

#[test]
fn steps_in_order() {
    let expected = [
        ("latex", "paper.tex"),
        ("bibtex", "paper"),
        ("latex", "paper.tex"),
        ("latex", "paper.tex"),
        ("dvipdf", "paper.dvi"),
        ("pdftotext", "paper.pdf"),
    ];
    let steps = toolchain();
    assert_eq!(steps.len(), STEP_COUNT);
    for (i, (program, argument)) in expected.iter().enumerate() {
        assert_eq!(steps[i].program, *program);
        assert_eq!(steps[i].argument, *argument);
        assert_eq!(step(i).program, *program);
    }
    assert_eq!(DOCUMENT, "paper.tex");
    assert_eq!(OUTPUT, "paper.txt");
}

#[test]
fn all_steps_succeed() {
    let mut stage = start();
    let mut ran = Vec::new();
    while let Some(s) = current_step(stage) {
        ran.push(s.program);
        stage = advance(stage, true);
    }
    assert_eq!(stage, Stage::Done);
    assert_eq!(ran, vec!["latex", "bibtex", "latex", "latex", "dvipdf", "pdftotext"]);
}

#[test]
fn bibtex_failure_stops_the_run() {
    let mut stage = start();
    let mut ran = Vec::new();
    while let Some(s) = current_step(stage) {
        let ok = s.program != "bibtex";
        ran.push(s.program);
        stage = advance(stage, ok);
    }
    assert_eq!(stage, Stage::Failed(1));
    assert_eq!(ran, vec!["latex", "bibtex"]);
    assert_eq!(current_step(Stage::Failed(1)).map(|s| s.program), None);
}

#[test]
fn terminal_stages_stay() {
    assert_eq!(advance(Stage::Done, false), Stage::Done);
    assert_eq!(advance(Stage::Failed(3), true), Stage::Failed(3));
    assert_eq!(advance(Stage::Running(5), true), Stage::Done);
    assert_eq!(advance(Stage::Running(2), true), Stage::Running(3));
}

#[test]
fn failure_message_names_program() {
    assert_eq!(failure_message("bibtex"), "`bibtex` has failed");
}

#[test]
fn output_is_decoded_and_trimmed() {
    let bytes = b"\n\n  [1] A. Author, \xff\"Title,\" 2001.\n\x0c\n".to_vec();
    assert_eq!(output_text(&bytes), "[1] A. Author, \u{fffd}\"Title,\" 2001.");
    assert_eq!(output_text(&Vec::new()), "");
}

#[test]
fn finished_stages() {
    assert_eq!(finished(Stage::Running(0)), None);
    assert_eq!(finished(Stage::Done), Some(Ok(())));
    assert_eq!(finished(Stage::Failed(1)), Some(Err("`bibtex` has failed".to_string())));
    assert_eq!(finished(Stage::Failed(5)), Some(Err("`pdftotext` has failed".to_string())));
}

#[test]
fn valid_utf8_output_is_kept() {
    let bytes = " Müller, “Title” \n".as_bytes().to_vec();
    assert_eq!(output_text(&bytes), "Müller, “Title”");
}
