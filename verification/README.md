# deck_forest

A random-forest classifier that predicts whether a Magic: The Gathering
Pauper deck finishes with a rank below 8 in a challenge event, built from
deck lists scraped from event pages.

`src/` is the verified library (Verus):

- `page` — the retry limit, cutting the deck-list JSON out of a page, and
  reading its ranks and deck lists;
- `json` — reading JSON fields, lists and strings with `serde_json`;
- `players` — a player's deck features from the player's JSON;
- `cache` — the player cache format, with a proof that what is written
  reads back unchanged;
- `search`, `decimal`, `ascii`, `logfmt` — byte search and splitting,
  decimal numbers, ASCII literals, indented diagnostics;
- `deck`, `dataset` — per-deck features and the training rows;
- `tree`, `candidates`, `order`, `random`, `forest` — decision trees,
  candidate features for a split, voting and scoring.

`app/` holds the program around it: HTTP, files, printing, and the
parts that compute with floating point (Gini impurities, mean mana values,
the training share).
