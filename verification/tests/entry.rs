use color_bruteforcer::colors::{get_colors, Rgb};
use color_bruteforcer::entry::{mock_prompt, ColorEntry, ColorKind, EntryOutcome};

#[test]
fn test_get_colors_from_stdin() {
    let mut entry = ColorEntry::new();
    let mut outcomes = Vec::new();
    let mut prompts = Vec::new();
    let mut raw_iterations = 0;
    loop {
        raw_iterations += 1;
        prompts.push(entry.next_prompt());
        let outcome = entry.accept(mock_prompt(raw_iterations));
        outcomes.push(outcome);
        if outcome == EntryOutcome::Finished {
            break;
        }
    }
    assert_eq!(6, raw_iterations);
    assert_eq!(
        vec![
            EntryOutcome::Waiting,
            EntryOutcome::Accepted,
            EntryOutcome::Invalid,
            EntryOutcome::Mismatched { base: 1, target: 0 },
            EntryOutcome::Accepted,
            EntryOutcome::Finished,
        ],
        outcomes
    );
    assert_eq!(
        vec![
            (ColorKind::Base, 1),
            (ColorKind::Base, 1),
            (ColorKind::Target, 1),
            (ColorKind::Target, 1),
            (ColorKind::Target, 1),
            (ColorKind::Base, 2),
        ],
        prompts
    );
    let (base_colors, target_colors) = entry.into_colors();
    assert_eq!(vec!["FFFFFF".to_string()], base_colors);
    assert_eq!(vec!["000000".to_string()], target_colors);
    let expected_result = Ok((
        vec![Rgb { red: 255, green: 255, blue: 255 }],
        vec![Rgb { red: 0, green: 0, blue: 0 }],
    ));
    assert_eq!(expected_result, get_colors(base_colors, target_colors));
}

#[test]
fn test_mock_prompt_lines() {
    assert_eq!(None, mock_prompt(1));
    assert_eq!(Some("#FFFFFF".to_string()), mock_prompt(2));
    assert_eq!(Some("1488HH".to_string()), mock_prompt(3));
    assert_eq!(None, mock_prompt(4));
    assert_eq!(Some("000000".to_string()), mock_prompt(5));
    assert_eq!(None, mock_prompt(6));
}

#[test]
fn test_entry_takes_colors_in_turns() {
    let mut entry = ColorEntry::new();
    assert_eq!(EntryOutcome::Accepted, entry.accept(Some("#aabbcc".to_string())));
    assert_eq!(EntryOutcome::Accepted, entry.accept(Some("112233".to_string())));
    assert_eq!(EntryOutcome::Accepted, entry.accept(Some("#445566".to_string())));
    assert_eq!(EntryOutcome::Invalid, entry.accept(Some("#44556".to_string())));
    assert_eq!(EntryOutcome::Mismatched { base: 2, target: 1 }, entry.accept(None));
    assert_eq!((ColorKind::Target, 2), entry.next_prompt());
    assert_eq!((2, 1), entry.entered());
    assert_eq!(EntryOutcome::Accepted, entry.accept(Some("778899".to_string())));
    assert_eq!(EntryOutcome::Finished, entry.accept(None));
    let (base_colors, target_colors) = entry.into_colors();
    assert_eq!(vec!["aabbcc".to_string(), "445566".to_string()], base_colors);
    assert_eq!(vec!["112233".to_string(), "778899".to_string()], target_colors);
}
