# fda_mumbai_tracker

A tracker of Maharashtra FDA food-safety enforcement (licence suspensions,
stop-business orders, seals, seizures, re-openings) built daily from Google News
RSS: articles are fetched, a language model turns them into structured records,
and the records are stored in Postgres with a link to their source.

The library in `src/` holds the pipeline's decisions, each with a Verus contract:

- `text`, `json`: characters, trimming and searching; a JSON document as read from text.
- `models`: action and outlet kinds, news items, extracted records, dates.
- `news`: search-feed addresses, feed items, article snippets, and which fetched
  articles go on to extraction (fresh, newest first).
- `records`, `reply`: reading a model reply's text into records or duplicate groups,
  the retry hints of an error reply, and the next step after each model call, attempts
  counted.
- `llm`: which items are worth a call, batching, cleaning and de-duplicating the
  records, the keyword rules used when a call fails, and retry backoff.
- `events`, `db`, `dupes`: whether two names are the same outlet, which rows are
  written, and the duplicate-grouping pass.
- `scrape`: rows from records.
- `cron`: who may trigger a scrape through the cron endpoint.

Public proof functions state the properties that hold across calls (for instance,
that the rows written for a date window keep one row per event, or that ids handed to
the duplicate-grouping pass read back as the rows they name).

`app/` is the program around the library: HTTP, Postgres, the model-call loops, the
Vercel cron endpoint and the command-line entry points (`local-scrape`, `backfill`,
`migrate`, `refresh`, `cron`). Prompt texts are read at run time from `PROMPTS_DIR`.
