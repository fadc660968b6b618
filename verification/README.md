# avatracker

A verified library behind two small programs: a Discord bot that searches a
music tracker spreadsheet, and a file upload website.

- `src/text.rs`: normalizing names and queries, collapsing whitespace in a line,
  counting words.
- `src/html.rs`: the text of table cells, read from a depth-first walk of each
  cell's HTML subtree.
- `src/tracker.rs`: reading a tracker table into headers and records, the search
  index, search, and the content of a result page.
- `src/paging.rs`: the navigation buttons, the page dialog and the pager that
  moves between result pages.
- `src/bot.rs`: the bot's trackers by name.
- `src/files.rs`: file names, paths, dates and error replies of the upload site,
  and the content hash of an upload.
- `src/laws.rs`: properties that relate several calls.
- `src/chars.rs`: characters, words, lines, numbers.

`app/` holds the programs: `app bot` runs the Discord bot, `app web` the website.
