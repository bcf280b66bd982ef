# Dice Wars

A hex-map strategy game: players take turns attacking neighboring lands
with stacks of dice, and at the end of a turn each player receives new dice
for its largest connected region.

## Layout

- `src/` is the game's logic as a library verified with Verus:
  - `grid`, `graph`: the hex grid and connected regions of a player's lands;
  - `board`: map generation (balanced lands, dice and connectivity);
  - `dice`: die faces, dice totals and exact winning odds;
  - `game`: a match — attacks, battles, reinforcements, turns, the guest
    side of network play, replays and the computer players' attack options;
  - `replay`: stepping through a recorded match;
  - `rules`, `rng`: constants, player naming and colors, random draws;
  - `text`, `save`, `proto`: words and numbers in text, the settings and
    bookmark files, and the lines of the network protocol;
  - `menu`: the start menu's state and what each input does to it;
  - `lobby`: the host's guest seats, reconnect tokens and strikes;
  - `media`: WAV sound files, GIF replays (LZW included) and small image
    operations.
- `tests/` runs the library on concrete values.
- `app/` is the program around it: window, drawing, sound synthesis, files,
  sockets, and the computer players' floating-point scoring.
