use ferrograph::claude::{
    extract_skill_block, find_skill_block, find_skills_heading_end, has_skill_block,
    insert_after_position, patch_claude_md, remove_skill_block, replace_skill_block,
    skill_status, uninstall_claude_md, InstallState, SKILL_ENTRY,
};

#[test]
fn find_skills_heading_end_present() {
    let content = "# Rules\n\n## Skills\n\nsome stuff\n";
    let pos = find_skills_heading_end(content).unwrap();
    assert_eq!(&content[..pos], "# Rules\n\n## Skills\n");
}

#[test]
fn find_skills_heading_end_absent() {
    let content = "# Rules\n\n## Other\n";
    assert!(find_skills_heading_end(content).is_none());
}

#[test]
fn insert_after_skills_heading() {
    let content = "# Rules\n\n## Skills\n\n### other\n- other skill\n\n## Config\n";
    let pos = find_skills_heading_end(content).unwrap();
    let result = insert_after_position(content, pos);
    assert!(result.contains("## Skills\n\n### ferrograph\n"));
    assert!(result.contains("## Config\n"));
}

#[test]
fn find_skill_block_present() {
    let content = "## Skills\n\n### ferrograph\nline1\nline2\n\n## Other\n";
    let (start, end) = find_skill_block(content).unwrap();
    let block = &content[start..end];
    assert!(block.starts_with("### ferrograph\n"));
    assert!(block.contains("line2"));
    assert!(!block.contains("## Other"));
}

#[test]
fn find_skill_block_at_eof() {
    let content = "## Skills\n\n### ferrograph\nline1\nline2\n";
    let (start, end) = find_skill_block(content).unwrap();
    assert_eq!(end, content.len());
    assert!(content[start..end].starts_with("### ferrograph\n"));
}

#[test]
fn find_skill_block_absent() {
    assert!(find_skill_block("## Skills\n\n### other\n").is_none());
}

#[test]
fn replace_skill_block_idempotent() {
    let content = format!("## Skills\n\n{SKILL_ENTRY}\n\n## Other\n");
    let once = replace_skill_block(&content);
    let twice = replace_skill_block(&once);
    assert_eq!(once, twice, "replace should be idempotent");
}

#[test]
fn remove_skill_block_clean() {
    let content = format!("## Skills\n\n{SKILL_ENTRY}\n\n## Other\nstuff\n");
    let result = remove_skill_block(&content);
    assert!(!result.contains("ferrograph"));
    assert!(result.contains("## Other\nstuff\n"));
}

#[test]
fn remove_skill_block_noop_when_absent() {
    let content = "## Skills\n\n### other\n- stuff\n";
    assert_eq!(remove_skill_block(content), content);
}

#[test]
fn roundtrip_install_uninstall() {
    let original = "# Rules\n\n## Skills\n\n### other\n- stuff\n\n## Config\nfoo\n";
    let pos = find_skills_heading_end(original).unwrap();
    let installed = insert_after_position(original, pos);
    assert!(has_skill_block(&installed));
    let uninstalled = remove_skill_block(&installed);
    assert!(!has_skill_block(&uninstalled));
    assert!(uninstalled.contains("### other\n- stuff\n"));
    assert!(uninstalled.contains("## Config\nfoo\n"));
}

#[test]
fn patch_creates_file_from_scratch() {
    let content = patch_claude_md(None);
    assert!(content.contains("## Skills"));
    assert!(has_skill_block(&content));
}

#[test]
fn patch_appends_when_no_skills_heading() {
    let content = patch_claude_md(Some("# Rules\n\n## Other\nstuff\n"));
    assert!(content.contains("## Skills"));
    assert!(has_skill_block(&content));
    assert!(content.contains("## Other\nstuff\n"));
}

#[test]
fn patch_inserts_under_skills() {
    let content = patch_claude_md(Some("# Rules\n\n## Skills\n\n### other\n\n## Config\n"));
    assert!(has_skill_block(&content));
    let skills_pos = content.find("## Skills").unwrap();
    let entry_pos = content.find("### ferrograph").unwrap();
    let other_pos = content.find("### other").unwrap();
    assert!(entry_pos > skills_pos);
    assert!(entry_pos < other_pos);
}

#[test]
fn patch_is_idempotent() {
    let first = patch_claude_md(None);
    let second = patch_claude_md(Some(&first));
    assert_eq!(first, second, "patch should be idempotent");
}

#[test]
fn stale_block_detected_as_not_up_to_date() {
    let stale = "### ferrograph\n- old description from v1.0\n";
    assert!(has_skill_block(stale), "block should be detected");
    let extracted = extract_skill_block(stale).unwrap();
    assert_ne!(extracted, SKILL_ENTRY, "stale block should not match current entry");
}

#[test]
fn stray_marker_outside_block_not_detected() {
    let content = "## Notes\n\nWe use skill: \"ferrograph\" in our workflow.\n";
    assert!(
        !has_skill_block(content),
        "stray marker without ### ferrograph heading should not be detected as a block"
    );
}

#[test]
fn fresh_file_has_exact_layout() {
    let content = patch_claude_md(None);
    assert_eq!(content, format!("# Assistant Rules\n\n## Skills\n\n{SKILL_ENTRY}\n"));
}

#[test]
fn append_adds_missing_final_newline() {
    let content = patch_claude_md(Some("# Rules"));
    assert_eq!(content, format!("# Rules\n\n## Skills\n\n{SKILL_ENTRY}\n"));
}

#[test]
fn insert_places_blank_line_and_entry() {
    let content = "## Skills\nrest";
    let pos = find_skills_heading_end(content).unwrap();
    assert_eq!(pos, 10);
    assert_eq!(insert_after_position(content, pos), format!("## Skills\n\n{SKILL_ENTRY}\nrest"));
}

#[test]
fn heading_with_surrounding_spaces_is_found() {
    let content = "intro\n  ## Skills  \nbody";
    assert_eq!(find_skills_heading_end(content), Some(20));
}

#[test]
fn replace_upgrades_stale_block() {
    let content = "a\n### ferrograph\nold\n## Next\n";
    let replaced = replace_skill_block(content);
    assert_eq!(replaced, format!("a\n{SKILL_ENTRY}\n\n## Next\n"));
    assert_eq!(extract_skill_block(&replaced).unwrap(), SKILL_ENTRY);
}

#[test]
fn remove_takes_preceding_newline() {
    assert_eq!(remove_skill_block("a\n### ferrograph\nold\n## Next\n"), "a\n## Next\n");
}

#[test]
fn uninstall_reports_absent_block() {
    assert_eq!(uninstall_claude_md("# Rules\n"), None);
    assert_eq!(
        uninstall_claude_md("x\n### ferrograph\nbody\n"),
        Some("x".to_string())
    );
}

#[test]
fn status_installed_outdated_missing() {
    let current = patch_claude_md(None);
    let st = skill_status(true, true, Some(&current));
    assert_eq!(st.state, InstallState::Installed);
    assert!(st.up_to_date && st.claude_md_entry && st.skill_file);
    let st = skill_status(true, false, Some(&current));
    assert_eq!(st.state, InstallState::Outdated);
    let st = skill_status(true, true, Some("### ferrograph\nold\n"));
    assert_eq!(st.state, InstallState::Outdated);
    let st = skill_status(false, false, None);
    assert_eq!(st.state, InstallState::NotInstalled);
    assert_eq!(st.state.label(), "not_installed");
    assert_eq!(InstallState::Installed.label(), "installed");
    assert_eq!(InstallState::Outdated.label(), "outdated");
}

#[test]
fn state_labels() {
    assert_eq!(InstallState::Installed.label(), "installed");
    assert_eq!(InstallState::Outdated.label(), "outdated");
    assert_eq!(InstallState::NotInstalled.label(), "not_installed");
}

#[test]
fn patch_is_idempotent_on_content_with_block() {
    let content = "# Rules\n\n## Skills\n\n### ferrograph\nold text\n\n## Config\nx = 1\n";
    let first = patch_claude_md(Some(content));
    let second = patch_claude_md(Some(&first));
    assert_eq!(first, second);
    assert_eq!(first, format!("# Rules\n\n## Skills\n\n{SKILL_ENTRY}\n\n## Config\nx = 1\n"));
}

#[test]
fn replace_is_idempotent_at_end_of_file() {
    let content = "intro\n### ferrograph\nstale";
    let once = replace_skill_block(content);
    assert_eq!(once, format!("intro\n{SKILL_ENTRY}\n"));
    assert_eq!(replace_skill_block(&once), once);
}

#[test]
fn insert_then_remove_restores_content() {
    let original = "# Rules\n\n## Skills\n\n## Config\nfoo\n";
    let pos = find_skills_heading_end(original).unwrap();
    let installed = insert_after_position(original, pos);
    assert_eq!(remove_skill_block(&installed), original);
    let at_end = "# Rules\n## Skills\n";
    let installed = insert_after_position(at_end, at_end.chars().count());
    assert_eq!(remove_skill_block(&installed), at_end);
}

#[test]
fn heading_end_counts_crlf_terminator() {
    assert_eq!(find_skills_heading_end("## Skills\r\nx"), Some(11));
    assert_eq!(find_skills_heading_end("a\r\n## Skills\r\n"), Some(14));
    assert_eq!(find_skills_heading_end("## Skills"), Some(9));
}

#[test]
fn block_ends_at_heading_on_next_line() {
    assert_eq!(find_skill_block("### ferrograph\n## Other\n"), Some((0, 15)));
    assert_eq!(remove_skill_block("x\n### ferrograph\n## Other\n"), "x## Other\n");
}

#[test]
fn replaced_block_reads_back_as_entry() {
    let content = "# R\n### ferrograph\nold\n\n## Next\n";
    let replaced = replace_skill_block(content);
    assert_eq!(extract_skill_block(&replaced).as_deref(), Some(SKILL_ENTRY));
}
