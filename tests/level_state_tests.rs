#![allow(unused_imports)]

use sokoban::{CheckErrors, Level, LevelParseError, LevelSet, LevelState};
use sokoban::CheckError::{
    LevelOpen, Locked2x2Block, LockedPackApartWalls, NoPlayer, PackNotAvailable, TargetNotAvailable,
    TooFewPacks, TooFewTargets, TooManyPlayers,
};
use sokoban::Direction::{Down, Left, PushDown, PushLeft, PushRight, PushUp, Right, Up};
use sokoban::Field::{Empty, Pack, PackOnTarget, Player, PlayerOnTarget, Target, Wall};
use sokoban::ParseError::{WrongField, WrongSize};

#[test]
fn level_state_test_make_move_and_undo_move() {
        let level = Level::from_str("git", 8, 6,
            " ###### \
             #      #\
             # @ ...#\
             #   $$$#\
             #      # \
              ###### ").unwrap();
        
        let mut lstate = LevelState::new(&level).unwrap();
        let old_lstate = lstate.clone();
        assert_eq!((true, false), lstate.make_move(Left));
        assert_eq!(LevelState{ level: &level,
            player_x: 1, player_y: 2,
            area: Level::from_str("git", 8, 6,
            " ###### \
             #      #\
             #@  ...#\
             #   $$$#\
             #      # \
              ###### ").unwrap().area().clone(),
            moves: vec![Left], pushes: 0 },
            lstate);
        assert_eq!(true, lstate.undo_move());
        assert_eq!(old_lstate, lstate);
        
        let mut lstate = LevelState::new(&level).unwrap();
        let old_lstate = lstate.clone();
        assert_eq!((true, false), lstate.make_move(Right));
        assert_eq!(LevelState{ level: &level,
            player_x: 3, player_y: 2,
            area: Level::from_str("git", 8, 6,
            " ###### \
             #      #\
             #  @...#\
             #   $$$#\
             #      # \
              ###### ").unwrap().area().clone(),
            moves: vec![Right], pushes: 0 },
            lstate);
        assert_eq!(true, lstate.undo_move());
        assert_eq!(old_lstate, lstate);
        
        let mut lstate = LevelState::new(&level).unwrap();
        let old_lstate = lstate.clone();
        assert_eq!((true, false), lstate.make_move(Up));
        assert_eq!(LevelState{ level: &level,
            player_x: 2, player_y: 1,
            area: Level::from_str("git", 8, 6,
            " ###### \
             # @    #\
             #   ...#\
             #   $$$#\
             #      # \
              ###### ").unwrap().area().clone(),
            moves: vec![Up], pushes: 0 },
            lstate);
        assert_eq!(true, lstate.undo_move());
        assert_eq!(old_lstate, lstate);
        
        let mut lstate = LevelState::new(&level).unwrap();
        let old_lstate = lstate.clone();
        assert_eq!((true, false), lstate.make_move(Down));
        assert_eq!(LevelState{ level: &level,
            player_x: 2, player_y: 3,
            area: Level::from_str("git", 8, 6,
            " ###### \
             #      #\
             #   ...#\
             # @ $$$#\
             #      # \
              ###### ").unwrap().area().clone(),
            moves: vec![Down], pushes: 0 },
            lstate);
        assert_eq!(true, lstate.undo_move());
        assert_eq!(old_lstate, lstate);
        
        // move from target
        let level = Level::from_str("git", 8, 6,
            " ###### \
             #      #\
             # +  ..#\
             #   $$$#\
             #      # \
              ###### ").unwrap();
        
        let mut lstate = LevelState::new(&level).unwrap();
        let old_lstate = lstate.clone();
        assert_eq!((true, false), lstate.make_move(Left));
        assert_eq!(LevelState{ level: &level,
            player_x: 1, player_y: 2,
            area: Level::from_str("git", 8, 6,
            " ###### \
             #      #\
             #@.  ..#\
             #   $$$#\
             #      # \
              ###### ").unwrap().area().clone(),
            moves: vec![Left], pushes: 0 },
            lstate);
        let mut lstate2 = lstate.clone();
        assert_eq!(true, lstate2.undo_move());
        assert_eq!(old_lstate, lstate2);
        // move to target
        let old_lstate = lstate.clone();
        assert_eq!((true, false), lstate.make_move(Right));
        assert_eq!(LevelState{ level: &level,
            player_x: 2, player_y: 2,
            area: Level::from_str("git", 8, 6,
            " ###### \
             #      #\
             # +  ..#\
             #   $$$#\
             #      # \
              ###### ").unwrap().area().clone(),
            moves: vec![Left,Right], pushes: 0 },
            lstate);
        assert_eq!(true, lstate.undo_move());
        assert_eq!(old_lstate, lstate);
        
        // move failures
        let level = Level::from_str("git", 8, 6,
            " ###### \
             #      #\
             #@  ...#\
             #   $$$#\
             #      # \
              ###### ").unwrap();
        let mut lstate = LevelState::new(&level).unwrap();
        assert_eq!((false, false), lstate.make_move(Left));
        assert_eq!(LevelState{ level: &level,
            player_x: 1, player_y: 2,
            area: level.area().clone(),
            moves: vec![], pushes: 0 },
            lstate);
        
        let level = Level::from_str("git", 8, 6,
            " ###### \
             #      #\
             #   ..+#\
             #   $$$#\
             #      # \
              ###### ").unwrap();
        let mut lstate = LevelState::new(&level).unwrap();
        assert_eq!((false, false), lstate.make_move(Right));
        assert_eq!(LevelState{ level: &level,
            player_x: 6, player_y: 2,
            area: level.area().clone(),
            moves: vec![], pushes: 0 },
            lstate);
        
        let level = Level::from_str("git", 8, 6,
            " ###### \
             #  @   #\
             #   ...#\
             #   $$$#\
             #      # \
              ###### ").unwrap();
        let mut lstate = LevelState::new(&level).unwrap();
        assert_eq!((false, false), lstate.make_move(Up));
        assert_eq!(LevelState{ level: &level,
            player_x: 3, player_y: 1,
            area: level.area().clone(),
            moves: vec![], pushes: 0 },
            lstate);
        
        let level = Level::from_str("git", 8, 6,
            " ###### \
             #      #\
             #   ...#\
             #   $$$#\
             #  @   # \
              ###### ").unwrap();
        let mut lstate = LevelState::new(&level).unwrap();
        assert_eq!((false, false), lstate.make_move(Down));
        assert_eq!(LevelState{ level: &level,
            player_x: 3, player_y: 4,
            area: level.area().clone(),
            moves: vec![], pushes: 0 },
            lstate);
        
        // pushes
        let level = Level::from_str("git", 8, 7,
            " ###### \
             # ..   #\
             # ..$  #\
             #  $@$ #\
             #   $  #\
             #      # \
              ###### ").unwrap();
        let mut lstate = LevelState::new(&level).unwrap();
        let old_lstate = lstate.clone();
        assert_eq!((true, true), lstate.make_move(Left));
        assert_eq!(LevelState{ level: &level,
            player_x: 3, player_y: 3,
            area: Level::from_str("git", 8, 7,
            " ###### \
             # ..   #\
             # ..$  #\
             # $@ $ #\
             #   $  #\
             #      # \
              ###### ").unwrap().area().clone(),
            moves: vec![PushLeft], pushes: 1 },
            lstate);
        assert_eq!(true, lstate.undo_move());
        assert_eq!(old_lstate, lstate);
        
        let mut lstate = LevelState::new(&level).unwrap();
        let old_lstate = lstate.clone();
        assert_eq!((true, true), lstate.make_move(Right));
        assert_eq!(LevelState{ level: &level,
            player_x: 5, player_y: 3,
            area: Level::from_str("git", 8, 7,
            " ###### \
             # ..   #\
             # ..$  #\
             #  $ @$#\
             #   $  #\
             #      # \
              ###### ").unwrap().area().clone(),
            moves: vec![PushRight], pushes: 1 },
            lstate);
        assert_eq!(true, lstate.undo_move());
        assert_eq!(old_lstate, lstate);
        
        let mut lstate = LevelState::new(&level).unwrap();
        let old_lstate = lstate.clone();
        assert_eq!((true, true), lstate.make_move(Up));
        assert_eq!(LevelState{ level: &level,
            player_x: 4, player_y: 2,
            area: Level::from_str("git", 8, 7,
            " ###### \
             # ..$  #\
             # ..@  #\
             #  $ $ #\
             #   $  #\
             #      # \
              ###### ").unwrap().area().clone(),
            moves: vec![PushUp], pushes: 1 },
            lstate);
        assert_eq!(true, lstate.undo_move());
        assert_eq!(old_lstate, lstate);
        
        let mut lstate = LevelState::new(&level).unwrap();
        let old_lstate = lstate.clone();
        assert_eq!((true, true), lstate.make_move(Down));
        assert_eq!(LevelState{ level: &level,
            player_x: 4, player_y: 4,
            area: Level::from_str("git", 8, 7,
            " ###### \
             # ..   #\
             # ..$  #\
             #  $ $ #\
             #   @  #\
             #   $  # \
              ###### ").unwrap().area().clone(),
            moves: vec![PushDown], pushes: 1 },
            lstate);
        assert_eq!(true, lstate.undo_move());
        assert_eq!(old_lstate, lstate);
        
        // pushes from/to target
        let level = Level::from_str("git", 8, 7,
            " ###### \
             # ..   #\
             #  .$  #\
             # .$@$ #\
             #   $  #\
             #      # \
              ###### ").unwrap();
        let mut lstate = LevelState::new(&level).unwrap();
        let old_lstate = lstate.clone();
        assert_eq!((true, true), lstate.make_move(Left));
        assert_eq!(LevelState{ level: &level,
            player_x: 3, player_y: 3,
            area: Level::from_str("git", 8, 7,
            " ###### \
             # ..   #\
             #  .$  #\
             # *@ $ #\
             #   $  #\
             #      # \
              ###### ").unwrap().area().clone(),
            moves: vec![PushLeft], pushes: 1 },
            lstate);
        let mut lstate2 = lstate.clone();
        assert_eq!(true, lstate2.undo_move());
        assert_eq!(old_lstate, lstate2);
        
        let old_lstate = lstate.clone();
        assert_eq!((true, true), lstate.make_move(Left));
        assert_eq!(LevelState{ level: &level,
            player_x: 2, player_y: 3,
            area: Level::from_str("git", 8, 7,
            " ###### \
             # ..   #\
             #  .$  #\
             #$+  $ #\
             #   $  #\
             #      # \
              ###### ").unwrap().area().clone(),
            moves: vec![PushLeft, PushLeft], pushes: 2 },
            lstate);
        assert_eq!(true, lstate.undo_move());
        assert_eq!(old_lstate, lstate);
        
        // pushes failures
        let level = Level::from_str("git", 8, 7,
            " ###### \
             # ..   #\
             #...$  #\
             # $$@$ #\
             #   $  #\
             #      # \
              ###### ").unwrap();
        let mut lstate = LevelState::new(&level).unwrap();
        assert_eq!((false, false), lstate.make_move(Left));
        assert_eq!(LevelState{ level: &level,
            player_x: 4, player_y: 3,
            area:level.area().clone(),
            moves: vec![], pushes: 0 },
            lstate);
        let level = Level::from_str("git", 8, 7,
            " ###### \
             # ..   #\
             #  .$  #\
             # **@$ #\
             #   $  #\
             #      # \
              ###### ").unwrap();
        let mut lstate = LevelState::new(&level).unwrap();
        assert_eq!((false, false), lstate.make_move(Left));
        assert_eq!(LevelState{ level: &level,
            player_x: 4, player_y: 3,
            area:level.area().clone(),
            moves: vec![], pushes: 0 },
            lstate);
        let level = Level::from_str("git", 8, 7,
            " ###### \
             # ..   #\
             # ..$  #\
             # #$@$ #\
             #   $  #\
             #      # \
              ###### ").unwrap();
        let mut lstate = LevelState::new(&level).unwrap();
        assert_eq!((false, false), lstate.make_move(Left));
        assert_eq!(LevelState{ level: &level,
            player_x: 4, player_y: 3,
            area:level.area().clone(),
            moves: vec![], pushes: 0 },
            lstate);
        
        let level = Level::from_str("git", 8, 7,
            " ###### \
             # ..   #\
             #...$  #\
             #  $@$$#\
             #   $  #\
             #      # \
              ###### ").unwrap();
        let mut lstate = LevelState::new(&level).unwrap();
        assert_eq!((false, false), lstate.make_move(Right));
        assert_eq!(LevelState{ level: &level,
            player_x: 4, player_y: 3,
            area:level.area().clone(),
            moves: vec![], pushes: 0 },
            lstate);
        let level = Level::from_str("git", 8, 7,
            " ###### \
             # ..   #\
             # ..$  #\
             #  $@$##\
             #   $  #\
             #      # \
              ###### ").unwrap();
        let mut lstate = LevelState::new(&level).unwrap();
        assert_eq!((false, false), lstate.make_move(Right));
        assert_eq!(LevelState{ level: &level,
            player_x: 4, player_y: 3,
            area:level.area().clone(),
            moves: vec![], pushes: 0 },
            lstate);
        
        let level = Level::from_str("git", 8, 7,
            " ###### \
             # ..$  #\
             #...$  #\
             #  $@$ #\
             #   $  #\
             #      # \
              ###### ").unwrap();
        let mut lstate = LevelState::new(&level).unwrap();
        assert_eq!((false, false), lstate.make_move(Up));
        assert_eq!(LevelState{ level: &level,
            player_x: 4, player_y: 3,
            area:level.area().clone(),
            moves: vec![], pushes: 0 },
            lstate);
        let level = Level::from_str("git", 8, 7,
            " ###### \
             # ..#  #\
             # ..$  #\
             #  $@$ #\
             #   $  #\
             #      # \
              ###### ").unwrap();
        let mut lstate = LevelState::new(&level).unwrap();
        assert_eq!((false, false), lstate.make_move(Up));
        assert_eq!(LevelState{ level: &level,
            player_x: 4, player_y: 3,
            area:level.area().clone(),
            moves: vec![], pushes: 0 },
            lstate);
        
        let level = Level::from_str("git", 8, 7,
            " ###### \
             # ..   #\
             #...$  #\
             #  $@$ #\
             #   $  #\
             #   $  # \
              ###### ").unwrap();
        let mut lstate = LevelState::new(&level).unwrap();
        assert_eq!((false, false), lstate.make_move(Down));
        assert_eq!(LevelState{ level: &level,
            player_x: 4, player_y: 3,
            area:level.area().clone(),
            moves: vec![], pushes: 0 },
            lstate);
        let level = Level::from_str("git", 8, 7,
            " ###### \
             # ..   #\
             # ..$  #\
             #  $@$ #\
             #   $  #\
             #   #  # \
              ###### ").unwrap();
        let mut lstate = LevelState::new(&level).unwrap();
        assert_eq!((false, false), lstate.make_move(Down));
        assert_eq!(LevelState{ level: &level,
            player_x: 4, player_y: 3,
            area:level.area().clone(),
            moves: vec![], pushes: 0 },
            lstate);
}

#[test]
fn level_state_test_reset() {
        let level = Level::from_str("git", 8, 7,
            " ###### \
             # ..   #\
             #  .$  #\
             # .$@$ #\
             #   $  #\
             #      # \
              ###### ").unwrap();
        let mut lstate = LevelState::new(&level).unwrap();
        let old_lstate = lstate.clone();
        assert_eq!((true, true), lstate.make_move(Left));
        assert_eq!((true, true), lstate.make_move(Left));
        lstate.reset();
        assert_eq!(old_lstate, lstate);
}

#[test]
fn level_state_test_is_done() {
        let level = Level::from_str("git", 8, 6,
            " ###### \
             #      #\
             #@  ...#\
             #   $$$#\
             #      # \
              ###### ").unwrap();
        let mut lstate = LevelState::new(&level).unwrap();
        for m in vec![Down, Down, Right, Right, Right,
                    Up, Down,Right, Up, Down, Right, Up] {
            assert_eq!(false, lstate.is_done());
            lstate.make_move(m);
        }
        assert_eq!(true, lstate.is_done());
}
