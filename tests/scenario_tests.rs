use sokoban::{
    determine_display_and_level_position, CheckErrors, Level, LevelSet, LevelState, ReadError, XmlParseError,
};
use sokoban::CheckError::{
    LevelOpen, Locked2x2Block, LockedPackApartWalls, NoPlayer, PackNotAvailable, TargetNotAvailable,
    TooFewPacks, TooFewTargets, TooManyPlayers,
};
use sokoban::Direction::{Down, Left, PushRight, Right, Up};
use sokoban::Field::{Empty, Pack, PackOnTarget, Player, PlayerOnTarget, Target, Wall};
use sokoban::ParseError::{WrongField, WrongSize};

fn level(w: usize, h: usize, rows: &[&str]) -> Level {
    Level::from_str("t", w, h, &rows.concat()).unwrap()
}

#[test]
fn enclosed_level_passes_check() {
    let l = level(8, 6, &[" ###### ", "#      #", "#@  ...#", "#   $$$#", "#      #", " ###### "]);
    assert_eq!(Ok(()), l.check());
}

#[test]
fn open_row_reports_level_open() {
    let l = level(8, 6, &[" ###### ", "#      #", " @  ...#", "#   $$$#", "#      #", " ###### "]);
    assert_eq!(Err(CheckErrors(vec![LevelOpen])), l.check());
}

#[test]
fn push_into_box_is_refused() {
    let l = level(7, 3, &["#######", "#@$$  #", "#######"]);
    let mut s = LevelState::new(&l).unwrap();
    let before = s.clone();
    assert_eq!((false, false), s.make_move(Right));
    assert_eq!(before, s);
    assert_eq!(&l.area, s.area());
}

#[test]
fn no_player_fails_check_and_session() {
    let l = level(5, 3, &["#####", "# $.#", "#####"]);
    assert_eq!(Err(CheckErrors(vec![NoPlayer])), l.check());
    assert_eq!(Err(NoPlayer), LevelState::new(&l));
}

#[test]
fn check_reports_every_defect_in_order() {
    let l = level(5, 4, &["#####", "#$  #", "#   #", "#####"]);
    assert_eq!(
        Err(CheckErrors(vec![NoPlayer, TooFewTargets(1), Locked2x2Block(0, 0), LockedPackApartWalls(1, 1)])),
        l.check()
    );
}

#[test]
fn unreachable_room_is_reported() {
    let l = level(7, 3, &["#######", "#@ #$.#", "#######"]);
    assert_eq!(
        Err(CheckErrors(vec![
            PackNotAvailable(4, 1),
            TargetNotAvailable(5, 1),
            Locked2x2Block(3, 0),
            Locked2x2Block(3, 1),
            LockedPackApartWalls(4, 1),
        ])),
        l.check()
    );
}

#[test]
fn fill_marks_only_the_players_region() {
    let l = level(7, 4, &["#######", "#@ #  #", "#  # .#", "#######"]);
    let (marked, open) = l.fill_reachable(8);
    let expected: Vec<bool> = (0..28).map(|i| i == 8 || i == 9 || i == 15 || i == 16).collect();
    assert_eq!(expected, marked);
    assert!(!open);
    assert_eq!(Err(CheckErrors(vec![TooFewPacks(1), TargetNotAvailable(5, 2)])), l.check());
}

#[test]
fn fill_from_open_border_touches_frame() {
    let l = level(3, 1, &[" @ "]);
    assert_eq!((vec![true, true, true], true), l.fill_reachable(1));
}

#[test]
fn too_many_players() {
    let l = level(6, 3, &["######", "#@@$.#", "######"]);
    assert_eq!(Err(CheckErrors(vec![TooManyPlayers])), l.check());
    assert_eq!(Err(TooManyPlayers), LevelState::new(&l));
}

#[test]
fn packs_on_targets_do_not_lock() {
    let l = level(4, 4, &["####", "#**#", "#@ #", "####"]);
    assert_eq!(Ok(()), l.check());
}

#[test]
fn empty_level_has_no_player() {
    assert_eq!(Err(CheckErrors(vec![NoPlayer])), Level::empty().check());
}

#[test]
fn level_new_checks_size() {
    assert_eq!(Err(WrongSize(2, 2)), Level::new("x", 2, 2, vec![Wall]));
    let l = Level::new("x", 2, 1, vec![Wall, Player]).unwrap();
    assert_eq!((2, 1), (l.width(), l.height()));
    assert_eq!("x", l.name());
}

#[test]
fn from_str_rejects_non_field_characters() {
    assert_eq!(Err(WrongField(0, 0)), Level::from_str("x", 2, 1, "é"));
    assert_eq!(Err(WrongField(1, 1)), Level::from_str("x", 2, 2, "## x"));
    assert_eq!(Err(WrongSize(3, 1)), Level::from_str("x", 3, 1, "##"));
    let l = Level::from_str("x", 7, 1, " #@+.$*").unwrap();
    assert_eq!(vec![Empty, Wall, Player, PlayerOnTarget, Target, Pack, PackOnTarget], l.area);
}

#[test]
fn push_then_undo_restores_state() {
    let l = level(7, 3, &["#######", "#@$ . #", "#######"]);
    let mut s = LevelState::new(&l).unwrap();
    let before = s.clone();
    assert_eq!((true, true), s.make_move(Right));
    assert_eq!(vec![PushRight], *s.moves());
    assert_eq!(1, s.pushes_count());
    assert_eq!((2, 1), (s.player_x(), s.player_y()));
    assert_eq!(Pack, s.area()[10]);
    assert!(s.undo_move());
    assert_eq!(before, s);
    assert_eq!(0, s.pushes_count());
    assert!(!s.undo_move());
    assert_eq!(before, s);
}

#[test]
fn push_variant_moves_like_plain_move() {
    let l = level(5, 3, &["#####", "#@  #", "#####"]);
    let mut s = LevelState::new(&l).unwrap();
    assert_eq!((true, false), s.make_move(PushRight));
    assert_eq!(vec![Right], *s.moves());
    assert_eq!((false, false), s.make_move(sokoban::Direction::NoDirection));
}

#[test]
fn done_level_stays_done_after_failed_moves() {
    let l = level(5, 3, &["#####", "#@$.#", "#####"]);
    let mut s = LevelState::new(&l).unwrap();
    assert!(!s.is_done());
    assert_eq!((true, true), s.make_move(Right));
    assert!(s.is_done());
    assert_eq!((false, false), s.make_move(Right));
    assert_eq!((false, false), s.make_move(Up));
    assert_eq!((false, false), s.make_move(Down));
    assert!(s.is_done());
    assert_eq!((true, false), s.make_move(Left));
    assert!(s.is_done());
    s.reset();
    assert!(!s.is_done());
    assert_eq!(0, s.moves().len());
}

#[test]
fn text_names_are_trimmed() {
    let set = LevelSet::from_str(";\tSet name\t\n\n#####\n#@$.#\n#####\n; \tOne\t\n").unwrap();
    assert_eq!("Set name", set.name());
    let expected = Level::from_str("One", 5, 3, "######@$.######").unwrap();
    assert_eq!(&vec![Ok(expected)], set.levels());
    assert!(!set.has_errors());
}

#[test]
fn text_level_with_wrong_field_is_an_error() {
    let set = LevelSet::from_str("; S\n\n\n; a\n#####\n#@x.#\n#####\n").unwrap();
    assert!(set.has_errors());
    assert_eq!(1, set.levels().len());
    let e = set.levels()[0].as_ref().unwrap_err();
    assert_eq!((0, "a".to_string(), WrongField(2, 1)), (e.number, e.name.clone(), e.error));
}

#[test]
fn xml_escapes_and_signed_width() {
    let text = "<?xml version=\"1.0\"?><SokobanLevels><Title>A &amp; B</Title><LevelCollection>\
                <Level Id=\"x&lt;y\" Width=\"+3\"><L>###</L><L>#@#</L><L>###</L></Level>\
                </LevelCollection></SokobanLevels>";
    let set = LevelSet::from_str(text).unwrap();
    assert_eq!("A & B", set.name());
    assert_eq!(&vec![Ok(Level::from_str("x<y", 3, 3, "####@####").unwrap())], set.levels());
}

#[test]
fn xml_rows_are_cut_and_padded() {
    let text = "<?xml version=\"1.0\"?><SokobanLevels><LevelCollection>\
                <Level Id=\"p\" Width=\"3\" Height=\"3\"><L>#####</L><L>#@</L></Level>\
                </LevelCollection></SokobanLevels>";
    let set = LevelSet::from_str(text).unwrap();
    assert_eq!(&vec![Ok(Level::from_str("p", 3, 3, "####@    ").unwrap())], set.levels());
}

#[test]
fn xml_structure_errors() {
    let text = "<?xml version=\"1.0\"?><LevelCollection></LevelCollection>";
    assert_eq!(Err(ReadError::Structure(XmlParseError::BadStructure)), LevelSet::from_str(text));
    let text = "<?xml version=\"1.0\"?><SokobanLevels><LevelCollection>\
                <Level Width=\"abc\"><L>#</L></Level></LevelCollection></SokobanLevels>";
    assert_eq!(Err(ReadError::BadNumber), LevelSet::from_str(text));
    let text = "<?xml version=\"1.0\"?><SokobanLevels></Title>";
    assert_eq!(Err(ReadError::Syntax), LevelSet::from_str(text));
}

fn wrapped(text: &str, max_len: usize) -> Vec<String> {
    let chars: Vec<char> = text.chars().collect();
    sokoban::wrap_message(&chars, max_len).iter().map(|l| l.iter().collect()).collect()
}

#[test]
fn display_window_positions() {
    assert_eq!((5, 0, 10), determine_display_and_level_position(10, 20, 3));
    assert_eq!((0, 0, 10), determine_display_and_level_position(30, 10, 2));
    assert_eq!((0, 10, 10), determine_display_and_level_position(30, 10, 15));
    assert_eq!((0, 20, 10), determine_display_and_level_position(30, 10, 28));
}

#[test]
fn message_wrapping() {
    assert_eq!(vec!["Keys in game:", "Left, Right"], wrapped("Keys in game:\nLeft, Right", 40));
    assert_eq!(vec!["aaa", "bbb", "ccc"], wrapped("aaa bbb ccc", 5));
    assert_eq!(vec!["gh"], wrapped("abcdefgh", 3));
}

#[test]
fn error_texts() {
    assert_eq!(
        "Locked pack 4x5 apart walls. Locked 2x2 block 7x7.",
        CheckErrors(vec![LockedPackApartWalls(4, 5), Locked2x2Block(7, 7)]).to_text()
    );
    assert_eq!("", CheckErrors(vec![]).to_text());
    assert_eq!("No player.", CheckErrors(vec![NoPlayer]).to_text());
    assert_eq!("Too few packs - required 120", TooFewPacks(120).to_text());
    assert_eq!("Target 0x10 not available", TargetNotAvailable(0, 10).to_text());
}

#[test]
fn mutators_keep_the_target() {
    let mut f = PlayerOnTarget;
    f.set_player();
    assert_eq!(PlayerOnTarget, f);
    let mut f = PackOnTarget;
    f.set_pack();
    assert_eq!(PackOnTarget, f);
    let mut f = PackOnTarget;
    f.set_player();
    assert_eq!(PlayerOnTarget, f);
    f.unset_player();
    assert_eq!(Target, f);
    f.set_pack();
    assert_eq!(PackOnTarget, f);
    f.unset_pack();
    assert_eq!(Target, f);
    let mut f = Player;
    f.set_pack();
    assert_eq!(Pack, f);
    f.unset_pack();
    assert_eq!(Empty, f);
    let mut f = Empty;
    f.set_player();
    assert_eq!(Player, f);
    f.unset_player();
    assert_eq!(Empty, f);
}

#[test]
fn unicode_white_space_is_trimmed() {
    let set = LevelSet::from_str("; \u{a0}Set\u{3000}\n\n###\n#@#\n###\n;\u{2003}L\u{85}\n").unwrap();
    assert_eq!("Set", set.name());
    assert_eq!(&vec![Ok(Level::from_str("L", 3, 3, "####@####").unwrap())], set.levels());
}
