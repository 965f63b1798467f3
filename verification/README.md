# github_release_tag

The decision logic of a GitHub Action that tags releases, written in Verus.
From the commit messages since the last version tag (Conventional Commits)
it decides the next semantic version, renders a Markdown changelog grouped by
section, and works out the tag, release name and step outputs.

Layout:

- `src/analyzer.rs` – bump types and the bump that a list of commits calls for.
- `src/changelog.rs` – release rules (defaults and custom rules) and the changelog.
- `src/conventional.rs` – reading a commit message with `git_conventional`.
- `src/utils.rs` – version tags: filtering by prefix, parsing with `semver`,
  ordering, and the latest stable tag.
- `src/release.rs` – the next version and tag, release name, artifact
  patterns, repository name and step output lines.
- `src/github.rs` – the data of the compare endpoint and the asset upload URL.
- `src/text.rs` – character-level string operations with their specifications.
- `app/main.rs` – the program: environment, GitHub API calls, uploads.
- `tests/` – tests on concrete values.
