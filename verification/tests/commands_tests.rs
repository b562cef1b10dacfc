use split_editor::app::AppState;
use split_editor::commands::{key, CommandDetails, CommandKey, CommandKeyId, Commands};
use split_editor::keys::{KeyCode, KeyModifiers};

type CommandAction = fn(&mut AppState, KeyCode);

fn no_op(state: &mut AppState, _: KeyCode) {
    state.set_active_panel(100)
}

fn path(sequence: &[char]) -> Vec<CommandKeyId> {
    sequence.iter().map(|c| CommandKeyId::new_code(KeyCode::Char(*c))).collect()
}

fn assert_sequence(commands: &Commands<CommandAction>, sequence: &[char]) {
    match commands.get(&path(sequence)) {
        Some((true, Some(action))) => {
            let mut state = AppState::new();
            action(&mut state, KeyCode::Null);

            assert_eq!(state.active_panel(), 100, "State not changed");
        }
        _ => panic!("{:?} is not a Command", sequence),
    }
}

fn abc_command() -> split_editor::commands::CommandSequenceBuilder<CommandAction> {
    Commands::<CommandAction>::builder()
        .node(key('a'))
        .node(key('b'))
        .node(key('c'))
        .action(CommandDetails::split_horizontal(), no_op)
}

#[test]
fn mod_insert_basic() {
    let mut commands = Commands::<CommandAction>::new();

    commands.insert(abc_command()).unwrap();

    assert_sequence(&commands, &['a', 'b', 'c'])
}

#[test]
fn insert_without_action_is_err() {
    let mut commands = Commands::<CommandAction>::new();

    let result = commands.insert(Commands::<CommandAction>::builder().node(key('a')).node(key('b')).node(key('c')));

    assert!(result.is_err());
}

#[test]
fn insert_two_same_start() {
    let mut commands = Commands::<CommandAction>::new();

    commands.insert(abc_command()).unwrap();

    commands
        .insert(
            Commands::<CommandAction>::builder()
                .node(key('a'))
                .node(key('b'))
                .node(key('d'))
                .action(CommandDetails::split_horizontal(), no_op),
        )
        .unwrap();

    assert_sequence(&commands, &['a', 'b', 'c']);
    assert_sequence(&commands, &['a', 'b', 'd']);
}

#[test]
fn insert_beyond_existing_command() {
    let mut commands = Commands::<CommandAction>::new();

    commands.insert(abc_command()).unwrap();

    let result = commands.insert(
        Commands::<CommandAction>::builder()
            .node(key('a'))
            .node(key('b'))
            .node(key('c'))
            .node(key('d'))
            .action(CommandDetails::split_horizontal(), no_op),
    );

    assert_sequence(&commands, &['a', 'b', 'c']);
    assert!(result.is_err());
}

#[test]
fn insert_beyond_existing_command_extended() {
    let mut commands = Commands::<CommandAction>::new();

    commands.insert(abc_command()).unwrap();

    let result = commands.insert(
        Commands::<CommandAction>::builder()
            .node(key('a'))
            .node(key('b'))
            .node(key('c'))
            .node(key('d'))
            .node(key('e'))
            .node(key('f'))
            .action(CommandDetails::split_horizontal(), no_op),
    );

    assert!(result.is_err());
}

#[test]
fn remove() {
    let mut commands = Commands::<CommandAction>::new();

    commands.insert(abc_command()).unwrap();

    commands.remove(abc_command()).unwrap();

    match commands.get_node(&vec![]) {
        Some(CommandKey::Node(_, _, children, _)) => assert!(children.is_empty()),
        _ => panic!("Not a Node"),
    }
}

#[test]
fn remove_leaves_sibling_branch() {
    let mut commands = Commands::<CommandAction>::new();

    commands
        .insert(
            Commands::<CommandAction>::builder()
                .node(key('a'))
                .node(key('b'))
                .node(key('c'))
                .node(key('d'))
                .action(CommandDetails::split_horizontal(), no_op),
        )
        .unwrap();

    commands
        .insert(
            Commands::<CommandAction>::builder()
                .node(key('a'))
                .node(key('b'))
                .node(key('e'))
                .node(key('f'))
                .action(CommandDetails::split_horizontal(), no_op),
        )
        .unwrap();

    commands
        .remove(
            Commands::<CommandAction>::builder()
                .node(key('a'))
                .node(key('b'))
                .node(key('c'))
                .node(key('d'))
                .action(CommandDetails::split_horizontal(), no_op),
        )
        .unwrap();

    assert_sequence(&commands, &['a', 'b', 'e', 'f']);
}

#[test]
fn remove_absent_sequence() {
    let mut commands = Commands::<CommandAction>::new();

    commands.insert(abc_command()).unwrap();

    commands
        .remove(
            Commands::<CommandAction>::builder()
                .node(key('a'))
                .node(key('b'))
                .node(key('d'))
                .action(CommandDetails::split_horizontal(), no_op),
        )
        .unwrap();

    assert_sequence(&commands, &['a', 'b', 'c']);
}

fn details(name: &str) -> CommandDetails {
    CommandDetails::new(name, "")
}

#[test]
fn is_end() {
    let mut commands = Commands::<CommandAction>::new();

    commands
        .insert(Commands::<CommandAction>::builder().node(key('a')).node(key('b')).node(key('c')).action(details("abc"), no_op))
        .unwrap();

    commands
        .insert(Commands::<CommandAction>::builder().node(key('a')).node(key('b')).node(key('d')).action(details("abd"), no_op))
        .unwrap();

    commands
        .insert(Commands::<CommandAction>::builder().node(key('a')).node(key('e')).node(key('f')).action(details("aef"), no_op))
        .unwrap();

    assert!(!commands.is_end(&vec![]));

    let mut progress = vec![
        CommandKeyId::new(KeyCode::Char('a'), KeyModifiers::empty()),
        CommandKeyId::new(KeyCode::Char('b'), KeyModifiers::empty()),
    ];

    assert!(!commands.is_end(&progress));

    progress.push(CommandKeyId::new(KeyCode::Char('d'), KeyModifiers::empty()));

    assert!(commands.is_end(&progress));

    progress.push(CommandKeyId::new(KeyCode::Char('e'), KeyModifiers::empty()));

    assert!(commands.is_end(&progress));
}

#[test]
fn keys_builds_plain_sequence() {
    let mut commands = Commands::<CommandAction>::new();

    commands
        .insert(Commands::<CommandAction>::builder().keys("xyz").action(details("xyz"), no_op))
        .unwrap();

    assert_sequence(&commands, &['x', 'y', 'z']);
    assert!(commands.get(&path(&['x', 'y'])).is_some());
    assert_eq!(commands.get(&path(&['x', 'y'])).map(|(end, action)| (end, action.is_some())), Some((false, false)));
}

#[test]
fn catch_all_matches_any_key() {
    let mut commands = Commands::<CommandAction>::new();

    commands
        .insert(
            Commands::<CommandAction>::builder()
                .node(split_editor::commands::ctrl_key('a'))
                .node(split_editor::commands::catch_all())
                .action(details("select"), no_op),
        )
        .unwrap();

    let keys = vec![
        CommandKeyId::new(KeyCode::Char('a'), KeyModifiers::control()),
        CommandKeyId::new(KeyCode::Char('q'), KeyModifiers::empty()),
    ];
    match commands.get(&keys) {
        Some((true, Some(_))) => (),
        _ => panic!("catch-all did not match"),
    }
}

#[test]
fn command_details_names() {
    assert_eq!(CommandDetails::split_horizontal().name(), "Split Horizontal");
    assert_eq!(CommandDetails::remove_panel().name(), "Remove");
    assert_eq!(CommandDetails::open_file().description(), "Open a file by typing name in input panel.");
    assert_eq!(CommandDetails::empty().name(), "");
}

#[test]
fn insert_keeps_earlier_sequences() {
    let mut commands = Commands::<CommandAction>::new();
    commands.insert(abc_command()).unwrap();
    commands
        .insert(
            Commands::<CommandAction>::builder()
                .node(key('a'))
                .node(key('d'))
                .action(CommandDetails::add_panel(), no_op),
        )
        .unwrap();

    assert_sequence(&commands, &['a', 'b', 'c']);
    assert_sequence(&commands, &['a', 'd']);
}

#[test]
fn refused_insert_keeps_earlier_sequences() {
    let mut commands = Commands::<CommandAction>::new();
    commands.insert(abc_command()).unwrap();
    let result = commands.insert(
        Commands::<CommandAction>::builder()
            .node(key('a'))
            .node(key('b'))
            .node(key('c'))
            .node(key('d'))
            .action(CommandDetails::add_panel(), no_op),
    );

    assert_eq!(result, Err("Existing command in sequence.".to_string()));
    assert_sequence(&commands, &['a', 'b', 'c']);
}

#[test]
fn remove_prunes_branch_beside_other_commands() {
    let mut commands = Commands::<CommandAction>::new();
    commands
        .insert(Commands::<CommandAction>::builder().node(key('a')).node(key('b')).action(CommandDetails::empty(), no_op))
        .unwrap();
    commands
        .insert(Commands::<CommandAction>::builder().node(key('x')).node(key('y')).action(CommandDetails::empty(), no_op))
        .unwrap();

    commands.remove(Commands::<CommandAction>::builder().node(key('a')).node(key('b'))).unwrap();

    assert!(commands.get_node(&path(&['a'])).is_none());
    assert_sequence(&commands, &['x', 'y']);
}

#[test]
fn remove_single_key_beside_other_commands() {
    let mut commands = Commands::<CommandAction>::new();
    commands.insert(Commands::<CommandAction>::builder().node(key('a')).action(CommandDetails::empty(), no_op)).unwrap();
    commands.insert(Commands::<CommandAction>::builder().node(key('x')).action(CommandDetails::empty(), no_op)).unwrap();

    commands.remove(Commands::<CommandAction>::builder().node(key('a'))).unwrap();

    assert!(commands.get(&path(&['a'])).is_none());
    assert_sequence(&commands, &['x']);
}
