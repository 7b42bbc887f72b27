#![allow(unused_imports)]

use sokoban::{CheckErrors, Level, LevelParseError, LevelSet, LevelState};
use sokoban::CheckError::{
    LevelOpen, Locked2x2Block, LockedPackApartWalls, NoPlayer, PackNotAvailable, TargetNotAvailable,
    TooFewPacks, TooFewTargets, TooManyPlayers,
};
use sokoban::Direction::{Down, Left, PushDown, PushLeft, PushRight, PushUp, Right, Up};
use sokoban::Field::{Empty, Pack, PackOnTarget, Player, PlayerOnTarget, Target, Wall};
use sokoban::ParseError::{WrongField, WrongSize};

#[test]
fn level_test_level_from_str() {
        let levela = Level::new("blable", 5, 3, vec![
            Wall, Wall, Wall, Wall, Wall,
            Wall, Target, Pack, Player, Wall,
            Wall, Wall, Wall, Wall, Wall]);
        assert!(levela.is_ok());
        let levelb = Level::from_str("blable", 5, 3,
            "#####\
             #.$@#\
             #####");
        assert_eq!(levela, levelb);
        
        let levela = Level::new("git", 8, 6, vec![
            Empty, Wall, Wall, Wall, Wall, Wall, Wall, Empty,
            Wall, Empty, Empty, Empty, Empty, Empty, Empty, Wall,
            Wall, Player, Empty, Empty, Target, Target, Target, Wall,
            Wall, Empty, Empty, Empty, Pack, Pack, Pack, Wall,
            Wall, Empty, Empty, Empty, Empty, Empty, Empty, Wall,
            Empty, Wall, Wall, Wall, Wall, Wall, Wall, Empty]);
        assert!(levela.is_ok());
        let levelb = Level::from_str("git", 8, 6,
            " ###### \
             #      #\
             #@  ...#\
             #   $$$#\
             #      # \
              ###### ");
        assert_eq!(levela, levelb);
        
        let levela = Level::new("git", 8, 6, vec![
            Empty, Wall, Wall, Wall, Wall, Wall, Wall, Empty,
            Wall, Empty, Empty, Empty, Empty, Empty, Empty, Wall,
            Wall, Empty, Empty, Empty, PlayerOnTarget, Target, PackOnTarget, Wall,
            Wall, Empty, Empty, Empty, Pack, Pack, Empty, Wall,
            Wall, Empty, Empty, Empty, Empty, Empty, Empty, Wall,
            Empty, Wall, Wall, Wall, Wall, Wall, Wall, Empty]);
        assert!(levela.is_ok());
        let levelb = Level::from_str("git", 8, 6,
            " ###### \
             #      #\
             #   +.*#\
             #   $$ #\
             #      # \
              ###### ");
        assert_eq!(levela, levelb);
        
        let levelb = Level::from_str("git", 8, 6,
            " ###### \
             #      #\
             #   +.*#\
             #   $$ #\
             #  x   # \
              ###### ");
        assert_eq!(Err(WrongField(3,4)), levelb);
        let levelb = Level::from_str("git", 8, 7,
            " ###### \
             #      #\
             #   +.*#\
             #   $$ #\
             #      # \
              ###### ");
        assert_eq!(Err(WrongSize(8,7)), levelb);
}

#[test]
fn level_test_check() {
        let level = Level::from_str("git", 8, 6,
            " ###### \
             #      #\
             #@  ...#\
             #   $$$#\
             #      # \
              ###### ").unwrap();
        assert_eq!(Ok(()), level.check());
        
        let level = Level::from_str("git", 11, 6,
            " ######    \
             #      ### \
             #@  ...#**#\
             #   $$$### \
             #      #    \
              ######    ").unwrap();
        assert_eq!(Ok(()), level.check());
        
        let level = Level::from_str("git", 8, 6,
            " ###### \
             #      #\
             #@  .*.#\
             #   $ $#\
             #      # \
              ###### ").unwrap();
        assert_eq!(Ok(()), level.check());
        
        let level = Level::from_str("git", 8, 6,
            " ### ## \
             #      #\
             #@  ...#\
             #   $$$#\
             #      # \
              ###### ").unwrap();
        let mut errors = CheckErrors::new();
        errors.push(LevelOpen);
        assert_eq!(Err(errors), level.check());
        
        let level = Level::from_str("git", 8, 6,
            " ###### \
             #      #\
             #   ...#\
             #   $$$#\
             #      # \
              ###### ").unwrap();
        let mut errors = CheckErrors::new();
        errors.push(NoPlayer);
        assert_eq!(Err(errors), level.check());
        
        let level = Level::from_str("git", 8, 6,
            " ###### \
             #      #\
             #@  +..#\
             #   $$$#\
             #      # \
              ###### ").unwrap();
        let mut errors = CheckErrors::new();
        errors.push(TooManyPlayers);
        assert_eq!(Err(errors), level.check());
        
        let level = Level::from_str("git", 8, 6,
            " ###### \
             #  @   #\
             #@  ...#\
             #   $$$#\
             #      # \
              ###### ").unwrap();
        let mut errors = CheckErrors::new();
        errors.push(TooManyPlayers);
        assert_eq!(Err(errors), level.check());
        
        let level = Level::from_str("git", 8, 6,
            " ###### \
             #      #\
             #@  .. #\
             #   $$$#\
             #      # \
              ###### ").unwrap();
        let mut errors = CheckErrors::new();
        errors.push(TooFewTargets(3));
        assert_eq!(Err(errors), level.check());
        
        let level = Level::from_str("git", 8, 6,
            " ###### \
             #     .#\
             #@  ...#\
             #   $$ #\
             #      # \
              ###### ").unwrap();
        let mut errors = CheckErrors::new();
        errors.push(TooFewPacks(4));
        assert_eq!(Err(errors), level.check());
        
        // availability
        let level = Level::from_str("git", 11, 6,
            " ######### \
             #      #..#\
             #@  ...#$$#\
             #   $$$### \
             #      #    \
              ######    ").unwrap();
        let mut errors = CheckErrors::new();
        errors.push(PackNotAvailable(8, 2));
        errors.push(PackNotAvailable(9, 2));
        errors.push(TargetNotAvailable(8, 1));
        errors.push(TargetNotAvailable(9, 1));
        errors.push(Locked2x2Block(7, 2));
        errors.push(Locked2x2Block(8, 2));
        errors.push(LockedPackApartWalls(8, 2));
        errors.push(LockedPackApartWalls(9, 2));
        assert_eq!(Err(errors), level.check());
        
        // locks
        let level = Level::from_str("git", 8, 6,
            " ###### \
             #   ...#\
             #@  $$.#\
             #   $$ #\
             #      # \
              ###### ").unwrap();
        let mut errors = CheckErrors::new();
        errors.push(Locked2x2Block(4, 2));
        assert_eq!(Err(errors), level.check());
        
        let level = Level::from_str("git", 8, 6,
            " ###### \
             #      #\
             #@  **.#\
             #   *$ #\
             #      # \
              ###### ").unwrap();
        let mut errors = CheckErrors::new();
        errors.push(Locked2x2Block(4, 2));
        assert_eq!(Err(errors), level.check());
        
        let level = Level::from_str("git", 8, 6,
            " ###### \
             #      #\
             #@  ** #\
             #   ** #\
             #   $ .# \
              ###### ").unwrap();
        assert_eq!(Ok(()), level.check());
        
        let level = Level::from_str("git", 8, 6,
            " ###### \
             #$  ..*#\
             #@    .#\
             #      #\
             #$    $# \
              ###### ").unwrap();
        let mut errors = CheckErrors::new();
        errors.push(LockedPackApartWalls(1, 1));
        errors.push(LockedPackApartWalls(1, 4));
        errors.push(LockedPackApartWalls(6, 4));
        assert_eq!(Err(errors), level.check());
        
        // some random level
        let level = Level::from_str("git", 10, 8,
            " ####     \
             ##  ##### \
             #  $  $ # \
             # $*..* ##\
             #  *$$.  #\
             #@ *.*.  #\
             ####   ###   \
                #####  ").unwrap();
        assert_eq!(Ok(()), level.check());
        
        // some original level
        let level = Level::from_str("git", 20, 16,
            "####################\
             #..#    #          #\
             #.$  $  #$$  $## $##\
             #.$#  ###  ## ##   #\
             #  # $ #  $$   $   #\
             # ###  # #  #$  ####\
             #  ## # $   #@ #   #\
             # $    $  ##.##  $ #\
             #  # $# $# $     ###\
             #  #  #  #   ###   #\
             #  ######## #      #\
             #           #  #.#.#\
             ##$########$#   ...#\
             #    .*  #    ##.#.#\
             # .*...*   $  .....#\
             ####################").unwrap();
        assert_eq!(Ok(()), level.check());
}
