# captioner

Makes captions for the published videos of a channel from the recordings on disk: it finds the
recording of each video that is long and has no captions, sends its sound to a transcription service
segment by segment, and writes a subtitle file.

`src/` is the library, verified with Verus:

- `duration`: durations in the form of ISO 8601, as the video service gives them;
- `recording`, `videos`: what a recorded file says of itself, the files in order, and which of them
  belongs to which published video;
- `listing`, `cache`: the questions to the video service, and how its replies are kept in files;
- `budget`: what transcription costs, and how much may be spent;
- `segments`, `captions`: how a recording is cut into segments, and how the captions of the segments
  are put together;
- `audio`, `srt`, `timestamp`: the command that extracts sound, and the subtitle file;
- `span`, `calendar`, `text`, `number`, `order`: spans of time, dates, text, numbers in text, and
  order by keys;
- `double`, `rounding`, `natural`: IEEE 754 doubles as bit patterns, with arithmetic that is exact up
  to one rounding, on whole numbers of any size.

What the library takes on trust are functions of chrono, serde_json, sha256 and symphonia and one of
the standard library; each stands in a small function of its own whose comment says what is claimed.

`app/` is the program around the library: configuration, the file system, the network, and the
processes that it starts. `tests/` holds the tests of the library.
