# kiwilua

A Telegram bot that answers a game's AppID or name with a ZIP archive of the
matching `.lua` files, in one of seven languages.

- `src/` is the verified library: the file index and its search
  (`finder`), the archive naming and building (`packer`), the source
  configuration and the classification of downloads (`source`), the
  languages, texts and preference store (`i18n`), the bot's decisions
  (`bot`), the program settings (`settings`), and the text and number
  helpers they share (`text`, `num`).
- `app/` is the program around it: the Telegram handlers, the health
  server, and the file and network I/O.
- `tests/` runs the library on concrete values.
