# splaunch

The library behind Splaunch, an editor that makes Zero-K scenarios and
compiles them to the start script the engine reads. Its logic is written in
Verus and proved against its specifications; the program around it reads
and writes files.

## Layout

- `src/` - the verified library.
  - `text`, `order` - characters, splitting, trimming, searching; text in
    `str`'s order and a stable sort for any strict weak order.
  - `codec` - base64 in both alphabets the project meets.
  - `lua` - the two Lua forms Zero-K's definition files use.
  - `game`, `roster`, `version` - what an install holds: the engine's
    archive index, game and map names, the unit palette, engine versions
    newest first.
  - `install` - where an install is looked for and what counts as one.
  - `mapfile`, `dds` - a map's metal infomap and a unit icon.
  - `container` - Coilbox's sharing envelope.
  - `scenario`, `script` - the checks a scenario must pass and the start
    script's sections.
  - `mission`, `customkey` - what the mission gadget is told: the
    modoptions that arm it, the objectives, briefing, markers, features,
    defeat conditions and placed units as base64url Lua tables, and the
    whole script a scenario compiles to.
  - `preset` - a Coilbox preset as the battle a scenario is played in.
  - `campaign` - campaigns, their checks, their file names, the compiled
    mission templates and what a packed campaign holds.
- `tests/` - tests of the library, run against the real dependencies.
- `app/` - the program's side: the filesystem, archives (zip and 7-zip),
  the process environment, the JSON forms, and what is floating point -
  positions are written out in decimal there and handed to the library.

Each public proof function named `law_...` states a property that holds
across calls or over all inputs, and Verus proves it.
