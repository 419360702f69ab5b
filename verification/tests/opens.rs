use speedyf::opens::launch_file_candidates;

#[test]
fn launch_arguments_skip_the_program_flags_and_empties() {
    let args: Vec<String> = ["speedyf", "--verbose", "a.pdf", "", "-x", "/b/c.pdf"]
        .iter()
        .map(|s| s.to_string())
        .collect();
    assert_eq!(
        launch_file_candidates(args),
        vec!["a.pdf".to_string(), "/b/c.pdf".to_string()]
    );
    assert!(launch_file_candidates(Vec::new()).is_empty());
    assert!(launch_file_candidates(vec!["only-the-program".to_string()]).is_empty());
}
