# video_dubber

Automatic dubbing of MP4 videos into Brazilian Portuguese through the
OpenRouter API: the audio is extracted, transcribed with timestamps,
translated, spoken again by a speech model and mixed back at the source
speech's timing.

- `src/` is the verified library (Verus): the timeline of speech segments
  (sorting, overlap removal, cutting of long segments, grouping of short
  ones), the reading of model replies (chat content, transcription and
  translation segments, the streamed speech events), the re-translation
  decisions, batching and retry schedules, and the audio-mixing filter
  graphs. Every public function states its result in its contract; the
  laws of the pipeline (no overlaps after cleaning, no word lost by cutting
  or grouping, incremental reading of the speech stream) are proof
  functions.
- `app/` is the command-line program: arguments, ffmpeg and ffprobe, HTTP
  requests, caches, progress bars and the floating-point timing of the
  speed adjustment.
- `tests/` runs the library on concrete inputs.
