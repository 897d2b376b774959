# gacha_url

Finds the gacha/convene history URL of a game (Genshin Impact, Honkai: Star
Rail, Zenless Zone Zero, Wuthering Waves, Arknights: Endfield) in its logs or
web cache, prints it and copies it to the clipboard.

Layout:

- `src/` – the library, verified with Verus: URL grammars of the game logs
  (`log_url`), the HoYoverse web cache (`web_cache`), Steam's
  `libraryfolders.vdf` (`steam`), per-game configuration (`config`), the
  games (`game`), the search for a game directory (`detect`) and character
  helpers (`text`).
- `app/` – the command-line program around it: argument parsing, the config
  file, directory walks, file reads, HTTP requests and the clipboard.
- `tests/` – tests of the library.
