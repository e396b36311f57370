use helix_notebook::kernel::{next_wait_action, WaitAction};
use helix_notebook::animation::{AnimationConfig, AnimationOrchestrator};
use helix_notebook::kernel::{output_without_marker, parse_pid, KernelManager};
use helix_notebook::text_annotations::RawContent;
use helix_notebook::time::Duration;

#[test]
fn animation_interval_is_clamped_and_idles_slower() {
    let config = AnimationConfig::default();
    assert_eq!(config.redraw_interval(), Duration::from_millis(16));
    let fast = AnimationConfig { redraw_interval_ms: 2, max_fps: 500 };
    assert_eq!(fast.redraw_interval(), Duration::from_millis(8));
    let orchestrator = AnimationOrchestrator::new(&config);
    assert_eq!(orchestrator.next_interval(true), Duration::from_millis(16));
    assert_eq!(orchestrator.next_interval(false), Duration::from_millis(33));
}

#[test]
fn kernel_paths_and_script() {
    let manager = KernelManager::new("julia", 999);
    assert_eq!(manager.kernel_dir(), "/tmp/helix-kernel-999");
    assert_eq!(manager.lang(), "julia");
    let input = manager.file("input.jl");
    let output = manager.file("output.txt");
    assert_eq!(input, "/tmp/helix-kernel-999/input.jl");
    let script = manager.create_runner_script(&input, &output);
    assert!(script.starts_with("# Helix Kernel Runner - REPL-style\nconst input_file = \"/tmp/helix-kernel-999/input.jl\"\nconst output_file = \"/tmp/helix-kernel-999/output.txt\"\nconst marker = \"__COMPLETE__\""));
    assert!(script.ends_with("    sleep(0.1)\nend\n"));
    let info = manager.info(4242);
    assert_eq!(info.kernel_id, 1);
    assert_eq!(info.lang, "julia");
    assert_eq!(info.pid, 4242);
    assert_eq!(info.output_file, "/tmp/helix-kernel-999/output.txt");
}

#[test]
fn kernel_output_drops_the_marker() {
    assert_eq!(output_without_marker("4\n\n__COMPLETE__\n"), "4\n");
    assert_eq!(output_without_marker("a\r\nb\n__COMPLETE__"), "a\nb");
    assert_eq!(output_without_marker(""), "");
    assert_eq!(output_without_marker("__COMPLETE__ \n__COMPLETE__"), "__COMPLETE__ ");
    assert_eq!(output_without_marker("x\r"), "x\r");
}

#[test]
fn pid_files_are_trimmed_and_parsed() {
    assert_eq!(parse_pid("  1234\n"), Some(1234));
    assert_eq!(parse_pid("4294967295"), Some(u32::MAX));
    assert_eq!(parse_pid("4294967296"), None);
    assert_eq!(parse_pid("-1"), None);
    assert_eq!(parse_pid(""), None);
}

#[test]
fn placeholder_content_reports_it() {
    let rc = RawContent::with_placeholders(3, 7, vec![1, 2], 2, 4, vec!["row".to_string()]);
    assert!(rc.uses_placeholders());
    assert!(!RawContent::new(3, 7, vec![], 1).uses_placeholders());
}

#[test]
fn waiting_reads_polls_or_gives_up() {
    assert_eq!(next_wait_action(true, 50_000_000_000), WaitAction::ReadOutput);
    assert_eq!(next_wait_action(false, 0), WaitAction::Sleep(100));
    assert_eq!(next_wait_action(false, 30_000_000_000), WaitAction::Sleep(100));
    assert_eq!(next_wait_action(false, 30_000_000_001), WaitAction::TimedOut);
}
